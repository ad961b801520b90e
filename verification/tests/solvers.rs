//! The solvers on doubles: small networks, with faer and Clarabel behind the kernels.

use clarabel::algebra::CscMatrix;
use clarabel::solver::IPSolver;
use dyn_stack::{GlobalPodBuffer, PodStack};
use faer_core::sparse::{SparseColMatRef, SymbolicSparseColMatRef};
use faer_core::{Conj, Mat, Parallelism, Side};
use faer_sparse::cholesky::{
    factorize_symbolic_cholesky, CholeskySymbolicParams, LdltRef, LdltRegularization, LltRef,
    LltRegularization, SymbolicCholesky,
};
use ndarray::Array2;
use theseus::arithmetic::Arithmetic;
use theseus::array::Array2 as Matrix;
use theseus::backend::{
    Backend, ConicAttempt, ConicSettings, QrFactor, QuadraticProgram, SolverStatus, Svd,
};
use theseus::creation::{create_problem, ProblemLists};
use theseus::double::Real;
use theseus::equilibrium::EquilibriumUnknown;
use theseus::error::{Buffer, Complaint, TheseusError};
use theseus::nullspace::NullspaceMethod;
use theseus::options::{InverseMetric, LinearAlgebra, ParticularMethod, DEFAULT_MAX_OUTER};
use theseus::prestress::MechanismClass;
use theseus::retraction::RowSpaceSolver;
use theseus::types::{FactorizationStrategy, QParameterizationMode};

fn double(x: f64) -> Real {
    Real { bits: x.to_bits() }
}

fn float(x: Real) -> f64 {
    f64::from_bits(x.bits)
}

fn reals(x: &[f64]) -> Vec<Real> {
    x.iter().map(|v| double(*v)).collect()
}

fn floats(x: &[Real]) -> Vec<f64> {
    x.iter().map(|v| float(*v)).collect()
}

fn matrix(x: &Array2<f64>) -> Matrix {
    let flat: Vec<f64> = x.iter().copied().collect();
    Matrix::from_rows(x.nrows(), x.ncols(), reals(&flat)).unwrap()
}

fn grid(x: &Matrix) -> Array2<f64> {
    Array2::from_shape_vec((x.nrows(), x.ncols()), floats(&x.to_flat())).unwrap()
}

/// The machine's own double operations.
#[derive(Clone, Copy)]
struct Native;

impl Arithmetic for Native {
    fn plus(&self, a: Real, b: Real) -> Real {
        double(float(a) + float(b))
    }
    fn minus(&self, a: Real, b: Real) -> Real {
        double(float(a) - float(b))
    }
    fn times(&self, a: Real, b: Real) -> Real {
        double(float(a) * float(b))
    }
    fn over(&self, a: Real, b: Real) -> Real {
        double(float(a) / float(b))
    }
    fn sqrt(&self, a: Real) -> Real {
        double(float(a).sqrt())
    }
    fn hypot(&self, a: Real, b: Real) -> Real {
        double(float(a).hypot(float(b)))
    }
    fn cos(&self, a: Real) -> Real {
        double(float(a).cos())
    }
    fn sin(&self, a: Real) -> Real {
        double(float(a).sin())
    }
    fn atan2(&self, a: Real, b: Real) -> Real {
        double(float(a).atan2(float(b)))
    }
    fn ln(&self, a: Real) -> Real {
        double(float(a).ln())
    }
    fn round(&self, a: Real) -> Real {
        double(float(a).round())
    }
    fn count(&self, a: u64) -> Real {
        double(a as f64)
    }
}

fn densify(a: &theseus::sparse::SparseColMatOwned) -> Vec<Vec<f64>> {
    let mut dense = vec![vec![0.0; a.ncols]; a.nrows];
    for j in 0..a.ncols {
        for k in a.col_ptrs[j] as usize..a.col_ptrs[j + 1] as usize {
            dense[a.row_indices[k] as usize][j] += float(a.values[k]);
        }
    }
    dense
}

fn csc(a: &theseus::sparse::SparseColMatOwned) -> CscMatrix<f64> {
    CscMatrix::new(
        a.nrows,
        a.ncols,
        a.col_ptrs.iter().map(|v| *v as usize).collect(),
        a.row_indices.iter().map(|v| *v as usize).collect(),
        floats(&a.values),
    )
}

/// A dense LU factor with row pivoting.
struct Lu {
    rows: Vec<Vec<f64>>,
    order: Vec<usize>,
}

impl Lu {
    fn new(a: &theseus::sparse::SparseColMatOwned) -> Result<Lu, TheseusError> {
        let mut rows = densify(a);
        let n = rows.len();
        let mut order: Vec<usize> = (0..n).collect();
        let scale = rows.iter().flatten().fold(0.0_f64, |m, v| m.max(v.abs()));
        for k in 0..n {
            let mut best = k;
            for i in k + 1..n {
                if rows[i][k].abs() > rows[best][k].abs() {
                    best = i;
                }
            }
            if !(rows[best][k].abs() > 1e-13 * scale) {
                return Err(TheseusError::Linalg(Complaint::Worded(
                    "factorization failed".to_string(),
                )));
            }
            rows.swap(k, best);
            order.swap(k, best);
            for i in k + 1..n {
                let factor = rows[i][k] / rows[k][k];
                rows[i][k] = factor;
                if factor != 0.0 {
                    for j in k + 1..n {
                        rows[i][j] -= factor * rows[k][j];
                    }
                }
            }
        }
        Ok(Lu { rows, order })
    }

    fn solve(&self, b: &[f64]) -> Vec<f64> {
        let n = self.rows.len();
        let mut x: Vec<f64> = self.order.iter().map(|i| b[*i]).collect();
        for i in 0..n {
            for j in 0..i {
                x[i] -= self.rows[i][j] * x[j];
            }
        }
        for i in (0..n).rev() {
            for j in i + 1..n {
                x[i] -= self.rows[i][j] * x[j];
            }
            x[i] /= self.rows[i][i];
        }
        x
    }
}

fn linalg(text: String) -> TheseusError {
    TheseusError::Linalg(Complaint::Worded(text))
}

fn pattern(a: &theseus::sparse::SparseColMatOwned) -> SymbolicSparseColMatRef<'_, u32> {
    SymbolicSparseColMatRef::new_checked(a.nrows, a.ncols, &a.col_ptrs, None, &a.row_indices)
}

/// A factor of a symmetric matrix, with the pattern that it was analyzed for.
struct Factorization {
    strategy: FactorizationStrategy,
    symbolic: SymbolicCholesky<u32>,
    values: Vec<f64>,
}

impl Factorization {
    fn new(
        g: &theseus::sparse::SparseColMatOwned,
        strategy: FactorizationStrategy,
    ) -> Result<Factorization, TheseusError> {
        let symbolic = factorize_symbolic_cholesky(
            pattern(g),
            Side::Lower,
            CholeskySymbolicParams::default(),
        )
        .map_err(|error| linalg(format!("symbolic factorization: {error:?}")))?;
        let values = vec![0.0; symbolic.len_values()];
        let mut factor = Factorization { strategy, symbolic, values };
        factor.update(g)?;
        Ok(factor)
    }

    /// Factors a matrix with the pattern of the first.
    fn update(&mut self, g: &theseus::sparse::SparseColMatOwned) -> Result<(), TheseusError> {
        let entries = floats(&g.values);
        let matrix = SparseColMatRef::<u32, f64>::new(pattern(g), entries.as_slice());
        let parallelism = Parallelism::None;
        match self.strategy {
            FactorizationStrategy::Cholesky => {
                let req = self
                    .symbolic
                    .factorize_numeric_llt_req::<f64>(parallelism)
                    .map_err(|error| linalg(format!("factorization workspace: {error:?}")))?;
                let mut memory = GlobalPodBuffer::new(req);
                self.symbolic
                    .factorize_numeric_llt(
                        self.values.as_mut_slice(),
                        matrix,
                        Side::Lower,
                        LltRegularization::default(),
                        parallelism,
                        PodStack::new(&mut memory),
                    )
                    .map_err(|error| linalg(format!("Cholesky factorization: {error:?}")))?;
            }
            FactorizationStrategy::LDL => {
                let req = self
                    .symbolic
                    .factorize_numeric_ldlt_req::<f64>(false, parallelism)
                    .map_err(|error| linalg(format!("factorization workspace: {error:?}")))?;
                let mut memory = GlobalPodBuffer::new(req);
                self.symbolic.factorize_numeric_ldlt(
                    self.values.as_mut_slice(),
                    matrix,
                    Side::Lower,
                    LdltRegularization::default(),
                    parallelism,
                    PodStack::new(&mut memory),
                );
            }
        }
        if self.values.iter().any(|v| !v.is_finite()) {
            return Err(linalg("factorization produced non-finite values".to_string()));
        }
        Ok(())
    }

    fn solve(&self, rhs: &mut Mat<f64>) -> Result<(), TheseusError> {
        let req = self
            .symbolic
            .solve_in_place_req::<f64>(rhs.ncols())
            .map_err(|error| linalg(format!("solve workspace: {error:?}")))?;
        let mut memory = GlobalPodBuffer::new(req);
        let stack = PodStack::new(&mut memory);
        let parallelism = Parallelism::None;
        match self.strategy {
            FactorizationStrategy::Cholesky => LltRef::<u32, f64>::new(
                &self.symbolic,
                self.values.as_slice(),
            )
            .solve_in_place_with_conj(Conj::No, rhs.as_mut(), parallelism, stack),
            FactorizationStrategy::LDL => LdltRef::<u32, f64>::new(
                &self.symbolic,
                self.values.as_slice(),
            )
            .solve_in_place_with_conj(Conj::No, rhs.as_mut(), parallelism, stack),
        }
        Ok(())
    }
}

/// The factorizations and the SVD of faer, a dense QR, and Clarabel.
struct Kernels;

impl Backend for Kernels {
    type Factor = Factorization;
    type Symbolic = (usize, usize);

    fn factor(
        &self,
        a: &theseus::sparse::SparseColMatOwned,
        strategy: FactorizationStrategy,
    ) -> Result<Factorization, TheseusError> {
        Factorization::new(a, strategy)
    }

    fn refactor(
        &self,
        factor: Factorization,
        a: &theseus::sparse::SparseColMatOwned,
    ) -> Result<Factorization, TheseusError> {
        let mut factor = factor;
        factor.update(a)?;
        Ok(factor)
    }

    fn solve(&self, factor: &Factorization, rhs: &Vec<Real>) -> Result<Vec<Real>, TheseusError> {
        let mut x = Mat::from_fn(rhs.len(), 1, |i, _| float(rhs[i]));
        factor.solve(&mut x)?;
        Ok((0..rhs.len()).map(|i| double(x.read(i, 0))).collect())
    }

    fn solve_columns(&self, factor: &Factorization, rhs: &Matrix) -> Result<Matrix, TheseusError> {
        let rhs = grid(rhs);
        let mut x = Mat::from_fn(rhs.nrows(), rhs.ncols(), |i, j| rhs[[i, j]]);
        factor.solve(&mut x)?;
        Ok(matrix(&Array2::from_shape_fn(rhs.dim(), |(i, j)| x.read(i, j))))
    }

    fn analyze_qr(
        &self,
        a: &theseus::sparse::SparseColMatOwned,
        _simplicial: bool,
    ) -> Result<(usize, usize), TheseusError> {
        Ok((a.nrows, a.ncols))
    }

    // The upper triangle of R by columns, then the columns of Q.
    fn factor_qr(
        &self,
        symbolic: &(usize, usize),
        a: &theseus::sparse::SparseColMatOwned,
    ) -> Result<QrFactor, TheseusError> {
        let (m, n) = *symbolic;
        let dense = densify(a);
        let mut q: Vec<Vec<f64>> = Vec::new();
        let mut starts = vec![0u32];
        let mut indices = Vec::new();
        let mut values = Vec::new();
        for j in 0..n {
            let mut column: Vec<f64> = (0..m).map(|i| dense[i][j]).collect();
            let mut weights = vec![0.0; j];
            for _ in 0..2 {
                for k in 0..j {
                    let dot: f64 = q[k].iter().zip(&column).map(|(a, b)| a * b).sum();
                    weights[k] += dot;
                    for i in 0..m {
                        column[i] -= dot * q[k][i];
                    }
                }
            }
            let norm = column.iter().map(|v| v * v).sum::<f64>().sqrt();
            for k in 0..j {
                indices.push(k as u32);
                values.push(double(weights[k]));
            }
            indices.push(j as u32);
            values.push(double(norm));
            starts.push(indices.len() as u32);
            q.push(column.iter().map(|v| v / norm).collect());
        }
        for column in &q {
            values.extend(reals(column));
        }
        starts.extend(indices);
        Ok(QrFactor { indices: starts, values })
    }

    fn solve_qr(
        &self,
        symbolic: &(usize, usize),
        factor: &QrFactor,
        rhs: &Matrix,
    ) -> Result<Matrix, TheseusError> {
        let (m, n) = *symbolic;
        let rhs = grid(rhs);
        let values = floats(&factor.values);
        let start = |j: usize| factor.indices[j] as usize;
        let q = &values[start(n)..];
        let mut x = Array2::<f64>::zeros(rhs.dim());
        for c in 0..rhs.ncols() {
            let mut y: Vec<f64> = (0..n)
                .map(|j| (0..m).map(|i| q[j * m + i] * rhs[[i, c]]).sum())
                .collect();
            for j in (0..n).rev() {
                y[j] /= values[start(j) + j];
                for i in 0..j {
                    y[i] -= values[start(j) + i] * y[j];
                }
            }
            for j in 0..n {
                x[[j, c]] = y[j];
            }
        }
        Ok(matrix(&x))
    }

    fn svd(&self, a: &Matrix, full: bool) -> Result<Svd, TheseusError> {
        let dense = grid(a);
        let (m, n) = dense.dim();
        let k = m.min(n);
        let source = Mat::from_fn(m, n, |i, j| dense[[i, j]]);
        let mut singular = Mat::<f64>::zeros(k, 1);
        let mut u = Mat::<f64>::zeros(m, if full { m } else { k });
        let mut v = Mat::<f64>::zeros(n, if full { n } else { k });
        let vectors = if full {
            faer_svd::ComputeVectors::Full
        } else {
            faer_svd::ComputeVectors::Thin
        };
        let params = faer_svd::SvdParams::default();
        let req = faer_svd::compute_svd_req::<f64>(
            m,
            n,
            vectors,
            vectors,
            Parallelism::None,
            params,
        )
        .unwrap();
        let mut memory = GlobalPodBuffer::new(req);
        faer_svd::compute_svd(
            source.as_ref(),
            singular.as_mut(),
            Some(u.as_mut()),
            Some(v.as_mut()),
            Parallelism::None,
            PodStack::new(&mut memory),
            params,
        );
        Ok(Svd {
            u: matrix(&Array2::from_shape_fn((u.nrows(), u.ncols()), |(i, j)| u.read(i, j))),
            singular: (0..k).map(|i| double(singular.read(i, 0))).collect(),
            v: matrix(&Array2::from_shape_fn((v.nrows(), v.ncols()), |(i, j)| v.read(i, j))),
        })
    }

    fn quadratic_program(
        &self,
        program: &QuadraticProgram,
        settings: ConicSettings,
    ) -> Result<ConicAttempt, TheseusError> {
        let mut chosen = clarabel::solver::DefaultSettings::<f64>::default();
        chosen.verbose = false;
        chosen.max_iter = settings.max_iter;
        chosen.tol_feas = float(settings.tolerance);
        chosen.tol_gap_abs = float(settings.tolerance);
        chosen.tol_gap_rel = float(settings.tolerance);
        chosen.presolve_enable = settings.presolve;
        chosen.equilibrate_min_scaling = float(settings.min_scaling);
        chosen.equilibrate_max_scaling = float(settings.max_scaling);
        let cones = [
            clarabel::solver::SupportedConeT::ZeroConeT(program.cones.zero),
            clarabel::solver::SupportedConeT::NonnegativeConeT(program.cones.nonnegative),
        ];
        let linear = vec![0.0; program.p.ncols];
        let mut solver = clarabel::solver::DefaultSolver::new(
            &csc(&program.p),
            &linear,
            &csc(&program.a),
            &floats(&program.b),
            &cones,
            chosen,
        )
        .map_err(|error| TheseusError::Solver(Complaint::Worded(format!("{error}"))))?;
        solver.solve();
        let status = match solver.solution.status {
            clarabel::solver::SolverStatus::Solved => SolverStatus::Solved,
            clarabel::solver::SolverStatus::AlmostSolved => SolverStatus::AlmostSolved,
            clarabel::solver::SolverStatus::PrimalInfeasible => SolverStatus::PrimalInfeasible,
            clarabel::solver::SolverStatus::MaxIterations => SolverStatus::MaxIterations,
            _ => SolverStatus::Other,
        };
        Ok(ConicAttempt {
            status,
            x: reals(&solver.solution.x),
            iterations: solver.solution.iterations,
            primal_residual: double(solver.solution.r_prim),
            dual_residual: double(solver.solution.r_dual),
            solve_time: double(solver.solution.solve_time),
        })
    }
}

/// An error that prints the library's own words for it.
#[derive(Debug)]
struct Failure(TheseusError);

impl std::fmt::Display for Failure {
    fn fmt(&self, out: &mut std::fmt::Formatter<'_>) -> std::fmt::Result {
        out.write_str(&self.0.message())
    }
}

struct SparseColMatOwned(theseus::sparse::SparseColMatOwned);

impl SparseColMatOwned {
    fn from_coo(
        nrows: usize,
        ncols: usize,
        rows: &[usize],
        cols: &[usize],
        values: &[f64],
    ) -> Result<SparseColMatOwned, Failure> {
        theseus::sparse::SparseColMatOwned::from_coo(
            &Native,
            nrows,
            ncols,
            &rows.to_vec(),
            &cols.to_vec(),
            &reals(values),
        )
        .map(SparseColMatOwned)
        .map_err(Failure)
    }

    fn transpose(&self) -> SparseColMatOwned {
        SparseColMatOwned(self.0.transpose())
    }

    fn matvec(&self, x: &[f64]) -> Vec<f64> {
        floats(&self.0.matvec(&Native, &reals(x)))
    }
}

struct Topology {
    edges: Vec<(usize, usize)>,
    num_edges: usize,
    num_nodes: usize,
    free_node_indices: Vec<usize>,
    fixed_node_indices: Vec<usize>,
}

struct Problem {
    topology: Topology,
    free_node_loads: Array2<f64>,
    fixed_node_positions: Array2<f64>,
}

impl Problem {
    fn new(
        edges: &[(usize, usize)],
        num_nodes: usize,
        free: Vec<usize>,
        fixed: Vec<usize>,
        loads: Array2<f64>,
        fixed_positions: Array2<f64>,
    ) -> Problem {
        Problem {
            topology: Topology {
                edges: edges.to_vec(),
                num_edges: edges.len(),
                num_nodes,
                free_node_indices: free,
                fixed_node_indices: fixed,
            },
            free_node_loads: loads,
            fixed_node_positions: fixed_positions,
        }
    }

    fn built(&self) -> theseus::types::Problem {
        let mut rows = Vec::new();
        let mut cols = Vec::new();
        let mut values = Vec::new();
        for (edge, &(start, end)) in self.topology.edges.iter().enumerate() {
            rows.extend([edge, edge]);
            cols.extend([start, end]);
            values.extend([-1.0, 1.0]);
        }
        let loads: Vec<f64> = self.free_node_loads.iter().copied().collect();
        let positions: Vec<f64> = self.fixed_node_positions.iter().copied().collect();
        let lists = ProblemLists {
            num_edges: self.topology.num_edges,
            num_nodes: self.topology.num_nodes,
            coo_rows: rows,
            coo_cols: cols,
            coo_vals: reals(&values),
            free_nodes: self.topology.free_node_indices.clone(),
            fixed_nodes: self.topology.fixed_node_indices.clone(),
            loads: reals(&loads),
            fixed_positions: reals(&positions),
            lower_bounds: reals(&vec![1e-8; self.topology.num_edges]),
            upper_bounds: reals(&vec![f64::INFINITY; self.topology.num_edges]),
        };
        create_problem(&Native, lists, None, solver_options()).unwrap()
    }
}

fn solver_options() -> theseus::types::SolverOptions {
    theseus::types::SolverOptions {
        max_iterations: 500,
        absolute_tolerance: double(1e-6),
        relative_tolerance: double(1e-6),
        report_frequency: 1,
        barrier_weight: double(1000.0),
        barrier_sharpness: double(10.0),
        anchor_saturation_lambda: double(1.0),
        q_parameterization_mode: QParameterizationMode::DirectSoftBounds,
    }
}

#[derive(Debug, Clone)]
struct InverseFdmOptions {
    regularization: f64,
    use_l2: bool,
    max_l1_iter: usize,
    particular_method: ParticularMethod,
    linear_algebra: LinearAlgebra,
    enforce_zero_rx: bool,
    enforce_zero_ry: bool,
    enforce_zero_rz: bool,
    solve_for_q: bool,
    signs: Vec<i32>,
    lower: Vec<f64>,
    upper: Vec<f64>,
    max_iter: usize,
    tol: f64,
    metric: InverseMetric,
    q_ref: Vec<f64>,
    max_frozen_outer: usize,
    max_outer: usize,
    cwls_damping: f64,
}

impl InverseFdmOptions {
    fn built(self) -> theseus::options::InverseFdmOptions {
        theseus::options::InverseFdmOptions {
            regularization: double(self.regularization),
            use_l2: self.use_l2,
            max_l1_iter: self.max_l1_iter,
            particular_method: self.particular_method,
            linear_algebra: self.linear_algebra,
            enforce_zero_rx: self.enforce_zero_rx,
            enforce_zero_ry: self.enforce_zero_ry,
            enforce_zero_rz: self.enforce_zero_rz,
            solve_for_q: self.solve_for_q,
            signs: self.signs,
            lower: reals(&self.lower),
            upper: reals(&self.upper),
            max_iter: self.max_iter,
            tol: double(self.tol),
            metric: self.metric,
            q_ref: reals(&self.q_ref),
            max_frozen_outer: self.max_frozen_outer,
            max_outer: self.max_outer,
            cwls_damping: double(self.cwls_damping),
        }
    }
}

#[derive(Debug)]
struct InverseFdmResult {
    q: Vec<f64>,
    iterations: usize,
    converged: bool,
    geometric_error: f64,
}

fn solve_inverse_fdm(
    problem: &Problem,
    target: &Array2<f64>,
    opts: InverseFdmOptions,
) -> Result<InverseFdmResult, Failure> {
    let solved = theseus::inverse::solve_inverse_fdm(
        &Native,
        &Kernels,
        &problem.built(),
        &matrix(target),
        opts.built(),
    )
    .map_err(Failure)?;
    Ok(InverseFdmResult {
        q: floats(&solved.q),
        iterations: solved.iterations,
        converged: solved.converged,
        geometric_error: float(solved.geometric_error),
    })
}

fn solve_pseudoinverse_dispatch(
    problem: &Problem,
    target: &Array2<f64>,
    regularization: f64,
    use_l2: bool,
    max_l1_iter: usize,
    method: ParticularMethod,
    rx: bool,
    ry: bool,
    rz: bool,
    solve_for_q: bool,
) -> Result<Vec<f64>, Failure> {
    theseus::inverse::solve_pseudoinverse_dispatch(
        &Native,
        &Kernels,
        &problem.built(),
        &matrix(target),
        double(regularization),
        use_l2,
        max_l1_iter,
        method,
        rx,
        ry,
        rz,
        solve_for_q,
    )
    .map(|q| floats(&q))
    .map_err(Failure)
}

fn solve_inverse_fdm_default(
    problem: &Problem,
    target: &Array2<f64>,
    rx: bool,
    ry: bool,
    rz: bool,
) -> Result<Vec<f64>, Failure> {
    theseus::inverse::solve_inverse_fdm_default(
        &Native,
        &Kernels,
        &problem.built(),
        &matrix(target),
        rx,
        ry,
        rz,
    )
    .map(|q| floats(&q))
    .map_err(Failure)
}

#[derive(Debug)]
struct SpgBoxResult {
    q: Vec<f64>,
    iterations: usize,
    converged: bool,
}

fn solve_spg_box(
    problem: &Problem,
    target: &Array2<f64>,
    max_iter: usize,
    tol: f64,
    signs: &[i32],
    lower: &[f64],
    upper: &[f64],
    regularization: f64,
    rx: bool,
    ry: bool,
    rz: bool,
    solve_for_q: bool,
) -> Result<SpgBoxResult, Failure> {
    let solved = theseus::inverse::solve_spg_box(
        &Native,
        &Kernels,
        &problem.built(),
        &matrix(target),
        max_iter,
        double(tol),
        &signs.to_vec(),
        &reals(lower),
        &reals(upper),
        double(regularization),
        rx,
        ry,
        rz,
        solve_for_q,
    )
    .map_err(Failure)?;
    Ok(SpgBoxResult {
        q: floats(&solved.q),
        iterations: solved.iterations,
        converged: solved.converged,
    })
}

#[derive(Debug)]
struct BoxBounds {
    lower: Vec<f64>,
    upper: Vec<f64>,
}

impl BoxBounds {
    fn has_finite(&self) -> bool {
        let bounds = theseus::bounds::BoxBounds {
            lower: reals(&self.lower),
            upper: reals(&self.upper),
        };
        bounds.has_finite()
    }
}

fn compose_box(
    n: usize,
    signs: &[i32],
    lower: &[f64],
    upper: &[f64],
) -> Result<BoxBounds, Failure> {
    theseus::bounds::compose_box(n, &signs.to_vec(), &reals(lower), &reals(upper))
        .map(|b| BoxBounds { lower: floats(&b.lower), upper: floats(&b.upper) })
        .map_err(Failure)
}

fn geometric_error_vector(
    problem: &Problem,
    target: &Array2<f64>,
    q: &[f64],
) -> Result<Array2<f64>, Failure> {
    theseus::geometry::geometric_error_vector(
        &Native,
        &Kernels,
        &problem.built(),
        &matrix(target),
        &reals(q),
    )
    .map(|e| grid(&e))
    .map_err(Failure)
}

struct EquilibriumSystem {
    a: SparseColMatOwned,
    p: Vec<f64>,
    lengths: Vec<f64>,
    n_eq: usize,
    n_edges: usize,
    free_positions: Array2<f64>,
    n_free: usize,
}

impl EquilibriumSystem {
    fn from_built(system: theseus::equilibrium::EquilibriumSystem) -> EquilibriumSystem {
        EquilibriumSystem {
            p: floats(&system.p),
            lengths: floats(&system.lengths),
            n_eq: system.n_eq,
            n_edges: system.n_edges,
            free_positions: grid(&system.free_positions),
            n_free: system.n_free,
            a: SparseColMatOwned(system.a),
        }
    }

    fn built(&self) -> theseus::equilibrium::EquilibriumSystem {
        theseus::equilibrium::EquilibriumSystem {
            a: self.a.0.clone(),
            p: reals(&self.p),
            lengths: reals(&self.lengths),
            n_eq: self.n_eq,
            n_edges: self.n_edges,
            free_positions: matrix(&self.free_positions),
            n_free: self.n_free,
        }
    }

    fn force(
        problem: &Problem,
        target: &Array2<f64>,
        rx: bool,
        ry: bool,
        rz: bool,
    ) -> Result<EquilibriumSystem, Failure> {
        theseus::equilibrium::EquilibriumSystem::force(
            &Native,
            &problem.built(),
            &matrix(target),
            rx,
            ry,
            rz,
        )
        .map(EquilibriumSystem::from_built)
        .map_err(Failure)
    }

    fn assemble(
        problem: &Problem,
        target: &Array2<f64>,
        unknown: EquilibriumUnknown,
        rx: bool,
        ry: bool,
        rz: bool,
    ) -> Result<EquilibriumSystem, Failure> {
        theseus::equilibrium::EquilibriumSystem::assemble(
            &Native,
            &problem.built(),
            &matrix(target),
            unknown,
            rx,
            ry,
            rz,
        )
        .map(EquilibriumSystem::from_built)
        .map_err(Failure)
    }
}

#[derive(Clone, Copy)]
struct NullspaceOptions {
    method: NullspaceMethod,
    max_modes: usize,
    include_rigid_bodies: bool,
    tolerance: f64,
    lsqr_max_iterations: usize,
}

impl Default for NullspaceOptions {
    fn default() -> NullspaceOptions {
        let usual = theseus::nullspace::NullspaceOptions::default();
        NullspaceOptions {
            method: usual.method,
            max_modes: usual.max_modes,
            include_rigid_bodies: usual.include_rigid_bodies,
            tolerance: float(usual.tolerance),
            lsqr_max_iterations: usual.lsqr_max_iterations,
        }
    }
}

impl NullspaceOptions {
    fn built(&self) -> theseus::nullspace::NullspaceOptions {
        theseus::nullspace::NullspaceOptions {
            method: self.method,
            max_modes: self.max_modes,
            include_rigid_bodies: self.include_rigid_bodies,
            tolerance: double(self.tolerance),
            lsqr_max_iterations: self.lsqr_max_iterations,
        }
    }
}

#[derive(Debug)]
struct NullspaceReport {
    rank: usize,
    s: usize,
    m_raw: usize,
    m: usize,
    n_rigid: usize,
    particular_t: Array2<f64>,
    residual_r: Vec<f64>,
    residual_ratio: f64,
    self_stress: Array2<f64>,
    mechanisms: Array2<f64>,
}

fn report_in_doubles(
    report: Result<theseus::nullspace::NullspaceReport, TheseusError>,
) -> Result<NullspaceReport, Failure> {
    let report = report.map_err(Failure)?;
    Ok(NullspaceReport {
        rank: report.rank,
        s: report.s,
        m_raw: report.m_raw,
        m: report.m,
        n_rigid: report.n_rigid,
        particular_t: grid(&report.particular_t),
        residual_r: floats(&report.residual_r),
        residual_ratio: float(report.residual_ratio),
        self_stress: grid(&report.self_stress),
        mechanisms: grid(&report.mechanisms),
    })
}

fn analyze(
    system: &EquilibriumSystem,
    options: &NullspaceOptions,
) -> Result<NullspaceReport, Failure> {
    report_in_doubles(theseus::nullspace::analyze(
        &Native,
        &Kernels,
        &system.built(),
        &options.built(),
    ))
}

fn analyze_projector(
    system: &EquilibriumSystem,
    options: &NullspaceOptions,
) -> Result<NullspaceReport, Failure> {
    report_in_doubles(theseus::nullspace::analyze_projector(
        &Native,
        &Kernels,
        &system.built(),
        &options.built(),
    ))
}

fn analyze_dense_svd(
    system: &EquilibriumSystem,
    options: &NullspaceOptions,
) -> Result<NullspaceReport, Failure> {
    report_in_doubles(theseus::nullspace::analyze_dense_svd(
        &Native,
        &Kernels,
        &system.built(),
        &options.built(),
    ))
}

fn apply_pseudoinverse(
    a: &SparseColMatOwned,
    rhs: &[f64],
    tolerance: f64,
    max_iterations: usize,
) -> Result<Vec<f64>, Failure> {
    theseus::lsqr::apply_pseudoinverse(
        &Native,
        &a.0,
        &reals(rhs),
        double(tolerance),
        max_iterations,
    )
    .map(|x| floats(&x))
    .map_err(Failure)
}

struct LengthRetractionOptions {
    max_iterations: usize,
    tolerance: f64,
    lsqr_max_iterations: usize,
    solver: RowSpaceSolver,
}

impl Default for LengthRetractionOptions {
    fn default() -> LengthRetractionOptions {
        let usual = theseus::retraction::LengthRetractionOptions::default();
        LengthRetractionOptions {
            max_iterations: usual.max_iterations,
            tolerance: float(usual.tolerance),
            lsqr_max_iterations: usual.lsqr_max_iterations,
            solver: usual.solver,
        }
    }
}

struct LengthRetractionResult {
    positions: Array2<f64>,
    iterations: usize,
    converged: bool,
}

fn retract_member_lengths(
    problem: &Problem,
    initial: &Array2<f64>,
    lengths: &[f64],
    options: &LengthRetractionOptions,
) -> Result<LengthRetractionResult, Failure> {
    let options = theseus::retraction::LengthRetractionOptions {
        max_iterations: options.max_iterations,
        tolerance: double(options.tolerance),
        lsqr_max_iterations: options.lsqr_max_iterations,
        solver: options.solver,
    };
    let result = theseus::retraction::retract_member_lengths(
        &Native,
        &Kernels,
        &problem.built(),
        &matrix(initial),
        &reals(lengths),
        &options,
    )
    .map_err(Failure)?;
    Ok(LengthRetractionResult {
        positions: grid(&result.positions),
        iterations: result.iterations,
        converged: result.converged,
    })
}

struct PrestressClassification {
    restricted_stiffness: Array2<f64>,
    eigenvalues: Vec<f64>,
    classes: Vec<MechanismClass>,
}

fn classify_prestress_stability(
    problem: &Problem,
    system: &EquilibriumSystem,
    prestress: &[f64],
    mechanisms: &Array2<f64>,
    tolerance: f64,
) -> Result<PrestressClassification, Failure> {
    let result = theseus::prestress::classify_prestress_stability(
        &Native,
        &problem.built(),
        &system.built(),
        &reals(prestress),
        &matrix(mechanisms),
        double(tolerance),
    )
    .map_err(Failure)?;
    Ok(PrestressClassification {
        restricted_stiffness: grid(&result.restricted_stiffness),
        eigenvalues: floats(&result.eigenvalues),
        classes: result.classes,
    })
}

/// The free positions in equilibrium under force densities `q`, and the member lengths.
fn forward_target(problem: &Problem, q: &[f64]) -> (Array2<f64>, Vec<f64>) {
    let topology = &problem.topology;
    let mut free_row = vec![None; topology.num_nodes];
    for (i, &node) in topology.free_node_indices.iter().enumerate() {
        free_row[node] = Some(i);
    }
    let mut positions = Array2::<f64>::zeros((topology.num_nodes, 3));
    for (i, &node) in topology.fixed_node_indices.iter().enumerate() {
        for d in 0..3 {
            positions[[node, d]] = problem.fixed_node_positions[[i, d]];
        }
    }
    let mut rows = Vec::new();
    let mut cols = Vec::new();
    let mut values = Vec::new();
    let mut rhs = problem.free_node_loads.clone();
    for (edge, &(start, end)) in topology.edges.iter().enumerate() {
        for (here, there) in [(start, end), (end, start)] {
            if let Some(i) = free_row[here] {
                rows.push(i);
                cols.push(i);
                values.push(q[edge]);
                if let Some(j) = free_row[there] {
                    rows.push(i);
                    cols.push(j);
                    values.push(-q[edge]);
                } else {
                    for d in 0..3 {
                        rhs[[i, d]] += q[edge] * positions[[there, d]];
                    }
                }
            }
        }
    }
    let n = topology.free_node_indices.len();
    let stiffness = SparseColMatOwned::from_coo(n, n, &rows, &cols, &values).unwrap();
    let factor = Lu::new(&stiffness.0).unwrap();
    let mut target = Array2::<f64>::zeros(rhs.dim());
    for d in 0..3 {
        let column = factor.solve(&rhs.column(d).to_vec());
        for i in 0..n {
            target[[i, d]] = column[i];
        }
    }
    for (i, &node) in topology.free_node_indices.iter().enumerate() {
        for d in 0..3 {
            positions[[node, d]] = target[[i, d]];
        }
    }
    let lengths = topology
        .edges
        .iter()
        .map(|&(start, end)| {
            (0..3)
                .map(|d| (positions[[end, d]] - positions[[start, d]]).powi(2))
                .sum::<f64>()
                .sqrt()
        })
        .collect();
    (target, lengths)
}

fn make_problem(
    edges: &[(usize, usize)],
    num_nodes: usize,
    free_indices: Vec<usize>,
    fixed_indices: Vec<usize>,
    loads: Array2<f64>,
    fixed_positions: Array2<f64>,
) -> Problem {
    Problem::new(edges, num_nodes, free_indices, fixed_indices, loads, fixed_positions)
}

fn problem(
    edges: &[(usize, usize)],
    positions: &[[f64; 3]],
    free: Vec<usize>,
    fixed: Vec<usize>,
    loads: Vec<f64>,
) -> (Problem, Array2<f64>) {
    let free_positions = Array2::from_shape_fn((free.len(), 3), |(i, d)| positions[free[i]][d]);
    let fixed_positions = Array2::from_shape_fn((fixed.len(), 3), |(i, d)| positions[fixed[i]][d]);
    let loads = Array2::from_shape_vec((free.len(), 3), loads).unwrap();
    (
        Problem::new(edges, positions.len(), free, fixed, loads, fixed_positions),
        free_positions,
    )
}

fn triangle_problem() -> (Problem, Vec<(usize, usize)>) {
    let edges = vec![(0, 1), (1, 2)];
    let problem = make_problem(
        &edges,
        3,
        vec![1],
        vec![0, 2],
        Array2::from_shape_vec((1, 3), vec![0.0, 0.0, -1.0]).unwrap(),
        Array2::from_shape_vec((2, 3), vec![0.0, 0.0, 0.0, 2.0, 0.0, 0.0]).unwrap(),
    );
    (problem, edges)
}

fn arch_problem(selective_load: bool) -> (Problem, Vec<(usize, usize)>) {
    let edges = vec![
        (0, 1),
        (1, 2),
        (2, 3),
        (3, 4),
        (4, 5),
        (5, 6),
        (1, 5),
        (2, 4),
    ];
    let mut load_values = vec![0.0; 15];
    if selective_load {
        load_values[2 * 3 + 2] = -2.0;
    } else {
        for i in 0..5 {
            load_values[i * 3 + 2] = -1.0;
        }
    }
    let problem = make_problem(
        &edges,
        7,
        vec![1, 2, 3, 4, 5],
        vec![0, 6],
        Array2::from_shape_vec((5, 3), load_values).unwrap(),
        Array2::from_shape_vec((2, 3), vec![0.0, 0.0, 0.0, 6.0, 0.0, 0.0]).unwrap(),
    );
    (problem, edges)
}

fn duplicate_edge_problem() -> (Problem, Array2<f64>) {
    let edges = vec![(0, 1), (0, 1)];
    let problem = make_problem(
        &edges,
        2,
        vec![0],
        vec![1],
        Array2::from_shape_vec((1, 3), vec![0.0, 0.0, -1.0]).unwrap(),
        Array2::from_shape_vec((1, 3), vec![0.0, 0.0, 0.0]).unwrap(),
    );
    let (target, _) = forward_target(&problem, &[1.0, 1.0]);
    (problem, target)
}

fn equilibrium_residual(
    problem: &Problem,
    edges: &[(usize, usize)],
    target: &Array2<f64>,
    q: &[f64],
) -> f64 {
    let mut positions = Array2::<f64>::zeros((problem.topology.num_nodes, 3));
    for (i, &node) in problem.topology.free_node_indices.iter().enumerate() {
        for d in 0..3 {
            positions[[node, d]] = target[[i, d]];
        }
    }
    for (i, &node) in problem.topology.fixed_node_indices.iter().enumerate() {
        for d in 0..3 {
            positions[[node, d]] = problem.fixed_node_positions[[i, d]];
        }
    }

    let mut residual_sq = 0.0;
    for (free_row, &node) in problem.topology.free_node_indices.iter().enumerate() {
        for d in 0..3 {
            let mut equilibrium = -problem.free_node_loads[[free_row, d]];
            for (edge, &(start, end)) in edges.iter().enumerate() {
                if node == start {
                    equilibrium -= (positions[[end, d]] - positions[[start, d]]) * q[edge];
                } else if node == end {
                    equilibrium += (positions[[end, d]] - positions[[start, d]]) * q[edge];
                }
            }
            residual_sq += equilibrium * equilibrium;
        }
    }
    residual_sq.sqrt()
}

fn fixed_reaction_norm(
    problem: &Problem,
    edges: &[(usize, usize)],
    target: &Array2<f64>,
    q: &[f64],
) -> f64 {
    let mut positions = Array2::<f64>::zeros((problem.topology.num_nodes, 3));
    for (i, &node) in problem.topology.free_node_indices.iter().enumerate() {
        for d in 0..3 {
            positions[[node, d]] = target[[i, d]];
        }
    }
    for (i, &node) in problem.topology.fixed_node_indices.iter().enumerate() {
        for d in 0..3 {
            positions[[node, d]] = problem.fixed_node_positions[[i, d]];
        }
    }

    let mut reaction_sq = 0.0;
    for &node in &problem.topology.fixed_node_indices {
        for d in 0..3 {
            let mut reaction = 0.0;
            for (edge, &(start, end)) in edges.iter().enumerate() {
                if node == start {
                    reaction -= (positions[[end, d]] - positions[[start, d]]) * q[edge];
                } else if node == end {
                    reaction += (positions[[end, d]] - positions[[start, d]]) * q[edge];
                }
            }
            reaction_sq += reaction * reaction;
        }
    }
    reaction_sq.sqrt()
}

fn tension_spg(
    problem: &Problem,
    target: &Array2<f64>,
    max_iter: usize,
    tol: f64,
) -> SpgBoxResult {
    solve_spg_box(
        problem,
        target,
        max_iter,
        tol,
        &[1],
        &[],
        &[],
        0.0,
        false,
        false,
        false,
        true,
    )
    .unwrap()
}

fn inverse_opts(
    regularization: f64,
    use_l2: bool,
    particular: ParticularMethod,
    algebra: LinearAlgebra,
    solve_for_q: bool,
) -> InverseFdmOptions {
    InverseFdmOptions {
        regularization,
        use_l2,
        max_l1_iter: 20,
        particular_method: particular,
        linear_algebra: algebra,
        enforce_zero_rx: false,
        enforce_zero_ry: false,
        enforce_zero_rz: false,
        solve_for_q,
        signs: Vec::new(),
        lower: Vec::new(),
        upper: Vec::new(),
        max_iter: 4_000,
        tol: 1e-8,
        metric: InverseMetric::Force,
        q_ref: Vec::new(),
        max_frozen_outer: 0,
        max_outer: DEFAULT_MAX_OUTER,
        cwls_damping: 1e-6,
    }
}

fn pinv(problem: &Problem, target: &Array2<f64>, use_l2: bool, augmented: bool) -> Vec<f64> {
    let method = if augmented {
        ParticularMethod::Augmented
    } else {
        ParticularMethod::Gram
    };
    solve_pseudoinverse_dispatch(
        problem, target, 1e-10, use_l2, 30, method, false, false, false, true,
    )
    .unwrap()
}

#[test]
fn round_trip_recovers_positive_force_densities_with_both_solvers() {
    let (problem, edges) = triangle_problem();
    let expected = vec![2.0, 3.0];
    let (target, _) = forward_target(&problem, &expected);

    let pinv_q = pinv(&problem, &target, true, false);
    let nnls = tension_spg(&problem, &target, 2_000, 1e-10);

    for (actual, expected) in pinv_q.iter().zip(&expected) {
        assert!((actual - expected).abs() < 1e-7, "pinv q={pinv_q:?}");
    }
    for (actual, expected) in nnls.q.iter().zip(&expected) {
        assert!((actual - expected).abs() < 1e-7, "SPG q={:?}", nnls.q);
    }
    assert!(nnls.converged);
    assert!((1..=2_000).contains(&nnls.iterations));
    assert!(equilibrium_residual(&problem, &edges, &target, &nnls.q) < 1e-8);
}

#[test]
fn selective_node_loads_are_supported_by_both_solvers() {
    let (problem, _) = arch_problem(true);
    let (target, _) = forward_target(&problem, &[2.0; 8]);

    let pinv_q = pinv(&problem, &target, true, false);
    let nnls = tension_spg(&problem, &target, 4_000, 1e-8);

    assert_eq!(pinv_q.len(), 8);
    assert!(pinv_q.iter().all(|q| q.is_finite()));
    assert_eq!(nnls.q.len(), 8);
    assert!(nnls.q.iter().all(|q| q.is_finite() && *q >= 0.0));
}

#[test]
fn pseudoinverse_normal_and_augmented_l2_agree() {
    let (problem, _) = arch_problem(false);
    let (target, _) = forward_target(&problem, &[1.5; 8]);

    let normal = pinv(&problem, &target, true, false);
    let augmented = pinv(&problem, &target, true, true);

    for (left, right) in normal.iter().zip(&augmented) {
        assert!((left - right).abs() < 1e-5, "{left} != {right}");
    }
}

#[test]
fn pseudoinverse_l1_and_solve_for_force_return_finite_values() {
    let (problem, _) = arch_problem(false);
    let (target, lengths) = forward_target(&problem, &[1.0; 8]);

    let l1 = pinv(&problem, &target, false, false);
    let solve_for_force = solve_pseudoinverse_dispatch(
        &problem,
        &target,
        1e-10,
        true,
        20,
        ParticularMethod::Gram,
        false,
        false,
        false,
        false,
    )
    .unwrap();

    assert!(l1.iter().all(|q| q.is_finite()));
    assert!(solve_for_force.iter().all(|q| q.is_finite()));
    for (q, length) in solve_for_force.iter().zip(lengths) {
        assert!((q * length).is_finite());
    }
}

#[test]
fn pseudoinverse_solve_for_force_rejects_degenerate_target_edges() {
    let (problem, _) = triangle_problem();
    let target = Array2::from_shape_vec((1, 3), vec![0.0, 0.0, 0.0]).unwrap();

    let result = solve_pseudoinverse_dispatch(
        &problem,
        &target,
        1e-6,
        true,
        20,
        ParticularMethod::Gram,
        false,
        false,
        false,
        false,
    );

    assert!(result.is_err());
}

#[test]
fn pseudoinverse_reaction_constraints_reduce_reaction_norm() {
    let (problem, edges) = arch_problem(false);
    let (target, _) = forward_target(&problem, &[1.0; 8]);

    let unconstrained = pinv(&problem, &target, true, false);
    let constrained = solve_pseudoinverse_dispatch(
        &problem,
        &target,
        1e-8,
        true,
        20,
        ParticularMethod::Gram,
        true,
        true,
        true,
        true,
    )
    .unwrap();

    assert_eq!(constrained.len(), 8);
    assert!(constrained.iter().all(|q| q.is_finite()));
    let unconstrained_reaction = fixed_reaction_norm(&problem, &edges, &target, &unconstrained);
    let constrained_reaction = fixed_reaction_norm(&problem, &edges, &target, &constrained);
    assert!(
        constrained_reaction < unconstrained_reaction,
        "reaction rows should reduce the target-geometry reaction norm: \
         constrained={constrained_reaction}, unconstrained={unconstrained_reaction}"
    );
}

#[test]
fn sparse_qr_particular_agrees_with_gram_on_tall_full_rank_fixture() {
    let (problem, _) = arch_problem(false);
    let (target, _) = forward_target(&problem, &[1.25; 8]);

    let gram = pinv(&problem, &target, true, false);
    let qr = solve_pseudoinverse_dispatch(
        &problem,
        &target,
        0.0,
        true,
        20,
        ParticularMethod::SparseQr,
        false,
        false,
        false,
        true,
    )
    .unwrap();

    assert_eq!(qr.len(), gram.len());
    for (left, right) in gram.iter().zip(&qr) {
        assert!(
            (left - right).abs() < 1e-5,
            "sparse QR particular {right} disagreed with Gram {left}"
        );
    }
}

#[test]
fn sparse_qr_particular_agrees_with_unregularized_gram_on_tall_full_rank_fixture() {
    let (problem, _) = arch_problem(false);
    let (target, _) = forward_target(&problem, &[1.25; 8]);

    let gram = solve_pseudoinverse_dispatch(
        &problem,
        &target,
        0.0,
        true,
        20,
        ParticularMethod::Gram,
        false,
        false,
        false,
        true,
    )
    .unwrap();
    let qr = solve_pseudoinverse_dispatch(
        &problem,
        &target,
        0.0,
        true,
        20,
        ParticularMethod::SparseQr,
        false,
        false,
        false,
        true,
    )
    .unwrap();

    assert_eq!(qr.len(), gram.len());
    for (left, right) in gram.iter().zip(&qr) {
        assert!(
            (left - right).abs() < 1e-5,
            "sparse QR particular {right} disagreed with unregularized Gram {left}"
        );
    }
}

#[test]
fn spg_tension_is_nonnegative_and_beats_clipped_pseudoinverse_residual() {
    let (problem, edges) = arch_problem(false);
    let target = Array2::from_shape_vec(
        (5, 3),
        vec![
            1.0, 0.0, 1.0, 2.0, 0.0, 2.2, 3.0, 0.0, 1.4, 4.0, 0.0, 2.0, 5.0, 0.0, 0.8,
        ],
    )
    .unwrap();

    let unconstrained = pinv(&problem, &target, true, false);
    let clipped: Vec<f64> = unconstrained.iter().map(|q| q.max(0.0)).collect();
    let nnls = tension_spg(&problem, &target, 10_000, 1e-8);

    assert!(nnls.q.iter().all(|q| q.is_finite() && *q >= 0.0));
    let nnls_residual = equilibrium_residual(&problem, &edges, &target, &nnls.q);
    let clipped_residual = equilibrium_residual(&problem, &edges, &target, &clipped);
    assert!(
        nnls_residual <= clipped_residual + 1e-6,
        "SPG residual {nnls_residual} exceeded clipped Pinv residual {clipped_residual}"
    );
}

fn max_abs(values: &[f64]) -> f64 {
    values.iter().map(|v| v.abs()).fold(0.0_f64, f64::max)
}

fn near_flat_problem() -> (Problem, Array2<f64>) {
    let edges = vec![(0, 1), (1, 2)];
    let problem = make_problem(
        &edges,
        3,
        vec![1],
        vec![0, 2],
        Array2::from_shape_vec((1, 3), vec![0.0, 0.0, -1.0]).unwrap(),
        Array2::from_shape_vec((2, 3), vec![0.0, 0.0, 0.0, 2.0, 0.0, 0.0]).unwrap(),
    );
    let target = Array2::from_shape_vec((1, 3), vec![1.0, 0.0, -1e-4]).unwrap();
    (problem, target)
}

#[test]
fn compose_box_intersects_signs_and_errors_on_empty_interval() {
    let box_plus = compose_box(2, &[1], &[], &[]).unwrap();
    assert!(box_plus.has_finite());
    assert_eq!(box_plus.lower, vec![0.0, 0.0]);
    assert!(box_plus.upper.iter().all(|u| *u == f64::INFINITY));

    let box_minus = compose_box(1, &[-1], &[-2.0], &[0.5]).unwrap();
    assert_eq!(box_minus.lower[0], -2.0);
    assert_eq!(box_minus.upper[0], 0.0);

    let mixed = compose_box(2, &[1, -1], &[0.1, -5.0], &[4.0, 0.0]).unwrap();
    assert_eq!(mixed.lower, vec![0.1, -5.0]);
    assert_eq!(mixed.upper, vec![4.0, 0.0]);

    assert!(compose_box(1, &[1], &[1.0], &[-0.5]).is_err());
    assert!(!compose_box(2, &[], &[], &[]).unwrap().has_finite());
}

#[test]
fn compression_and_mixed_signs_on_spg_and_clarabel() {
    let (problem, _) = arch_problem(false);
    let (target, _) = forward_target(&problem, &[1.5; 8]);

    for algebra in [LinearAlgebra::Direct, LinearAlgebra::Iterative] {
        let mut compression = inverse_opts(0.0, true, ParticularMethod::Augmented, algebra, true);
        compression.signs = vec![-1];
        compression.max_iter = 8_000;
        compression.tol = 1e-7;
        let result = solve_inverse_fdm(&problem, &target, compression).unwrap();
        assert!(
            result.q.iter().all(|q| *q <= 1e-8),
            "compression {:?} {:?}",
            algebra,
            result.q
        );

        let mut mixed = inverse_opts(0.0, true, ParticularMethod::Augmented, algebra, true);
        mixed.signs = vec![1, 1, -1, -1, 1, 1, 0, 0];
        mixed.max_iter = 8_000;
        mixed.tol = 1e-7;
        let mixed_result = solve_inverse_fdm(&problem, &target, mixed).unwrap();
        assert_eq!(mixed_result.q.len(), 8);
        assert!(mixed_result.q[0] >= -1e-8);
        assert!(mixed_result.q[1] >= -1e-8);
        assert!(mixed_result.q[2] <= 1e-8);
        assert!(mixed_result.q[3] <= 1e-8);
        assert!(mixed_result.q.iter().all(|q| q.is_finite()));
    }
}

#[test]
fn lower_and_upper_bounds_are_respected_by_both_engines() {
    let (problem, _) = triangle_problem();
    let (target, _) = forward_target(&problem, &[2.0, 3.0]);
    for algebra in [LinearAlgebra::Direct, LinearAlgebra::Iterative] {
        let mut opts = inverse_opts(0.0, true, ParticularMethod::Augmented, algebra, true);
        opts.lower = vec![0.5];
        opts.upper = vec![4.0];
        opts.max_iter = 4_000;
        let result = solve_inverse_fdm(&problem, &target, opts).unwrap();
        assert!(result
            .q
            .iter()
            .all(|q| (0.5 - 1e-6..=4.0 + 1e-6).contains(q)));
    }
}

#[test]
fn near_flat_box_caps_unconstrained_particular() {
    let (problem, target) = near_flat_problem();
    let unconstrained = solve_inverse_fdm(
        &problem,
        &target,
        inverse_opts(
            0.0,
            true,
            ParticularMethod::Augmented,
            LinearAlgebra::Direct,
            false,
        ),
    )
    .unwrap();
    let unconstrained_max = max_abs(&unconstrained.q);
    assert!(
        unconstrained_max > 50.0,
        "expected a large unconstrained particular, got {unconstrained_max}"
    );

    for algebra in [LinearAlgebra::Direct, LinearAlgebra::Iterative] {
        let mut opts = inverse_opts(0.0, true, ParticularMethod::Augmented, algebra, false);
        opts.upper = vec![10.0];
        opts.max_iter = 8_000;
        opts.tol = 1e-7;
        let boxed = solve_inverse_fdm(&problem, &target, opts).unwrap();
        // Public bounds are on q even though Stage 1 solves member force.
        let boxed_max = max_abs(&boxed.q);
        assert!(
            boxed_max < unconstrained_max * 0.5,
            "{algebra:?} box did not cap |q|: boxed={boxed_max} unconstrained={unconstrained_max} q={:?}",
            boxed.q
        );
        assert!(
            boxed.q.iter().all(|q| q.abs() <= 10.0 + 1e-4),
            "{algebra:?} q={:?}",
            boxed.q
        );
    }
}

#[test]
fn clarabel_and_spg_agree_on_a_simple_box() {
    let (problem, _) = triangle_problem();
    let (target, _) = forward_target(&problem, &[2.0, 3.0]);
    let mut clarabel = inverse_opts(
        0.0,
        true,
        ParticularMethod::Augmented,
        LinearAlgebra::Direct,
        true,
    );
    clarabel.signs = vec![1];
    let mut spg = inverse_opts(
        0.0,
        true,
        ParticularMethod::Augmented,
        LinearAlgebra::Iterative,
        true,
    );
    spg.signs = vec![1];
    spg.max_iter = 8_000;
    spg.tol = 1e-8;
    let left = solve_inverse_fdm(&problem, &target, clarabel).unwrap();
    let right = solve_inverse_fdm(&problem, &target, spg).unwrap();
    assert_eq!(left.q.len(), right.q.len());
    for (a, b) in left.q.iter().zip(&right.q) {
        assert!((a - b).abs() < 1e-3, "Clarabel {a} vs SPG {b}");
    }
}

#[test]
fn unconstrained_lsqr_agrees_with_qr_on_tall_full_rank_arch() {
    let (problem, _) = arch_problem(false);
    let (target, _) = forward_target(&problem, &[1.25; 8]);
    let qr = solve_inverse_fdm(
        &problem,
        &target,
        inverse_opts(
            0.0,
            true,
            ParticularMethod::SparseQr,
            LinearAlgebra::Direct,
            true,
        ),
    )
    .unwrap();
    let lsqr = solve_inverse_fdm(
        &problem,
        &target,
        inverse_opts(
            0.0,
            true,
            ParticularMethod::Augmented,
            LinearAlgebra::Iterative,
            true,
        ),
    )
    .unwrap();
    assert_eq!(qr.q.len(), lsqr.q.len());
    for (a, b) in qr.q.iter().zip(&lsqr.q) {
        assert!((a - b).abs() < 1e-5, "QR {a} vs LSQR {b}");
    }
}

#[test]
fn irls_runs_on_every_inner_and_stays_finite() {
    let (problem, _) = arch_problem(false);
    let (target, _) = forward_target(&problem, &[1.0; 8]);
    let cases = [
        (
            ParticularMethod::Augmented,
            LinearAlgebra::Direct,
            Vec::new(),
            Vec::new(),
        ),
        (
            ParticularMethod::Gram,
            LinearAlgebra::Direct,
            Vec::new(),
            Vec::new(),
        ),
        (
            ParticularMethod::SparseQr,
            LinearAlgebra::Direct,
            Vec::new(),
            Vec::new(),
        ),
        (
            ParticularMethod::Augmented,
            LinearAlgebra::Iterative,
            Vec::new(),
            Vec::new(),
        ),
        (
            ParticularMethod::Augmented,
            LinearAlgebra::Direct,
            vec![1],
            Vec::new(),
        ),
        (
            ParticularMethod::Augmented,
            LinearAlgebra::Iterative,
            vec![1],
            Vec::new(),
        ),
    ];
    for (particular, algebra, signs, lower) in cases {
        // Direct augmented IRLS uses Tikhonov here because strict Direct MP
        // intentionally rejects a singular zero-regularization weighted saddle.
        let lambda =
            if particular == ParticularMethod::Augmented && algebra == LinearAlgebra::Direct {
                1.0
            } else {
                0.0
            };
        let mut opts = inverse_opts(lambda, false, particular, algebra, true);
        opts.signs = signs;
        opts.lower = lower;
        opts.max_l1_iter = 8;
        opts.max_iter = 2_000;
        let result = solve_inverse_fdm(&problem, &target, opts).unwrap();
        assert!(
            result.q.iter().all(|q| q.is_finite()),
            "IRLS {particular:?} {algebra:?} produced non-finite q {:?}",
            result.q
        );
    }
}

#[test]
fn reaction_rows_reduce_reaction_norm_on_clarabel_and_spg() {
    let (problem, edges) = arch_problem(false);
    let (target, _) = forward_target(&problem, &[1.0; 8]);
    for algebra in [LinearAlgebra::Direct, LinearAlgebra::Iterative] {
        let mut free = inverse_opts(1e-8, true, ParticularMethod::Augmented, algebra, true);
        free.signs = vec![1];
        free.max_iter = 8_000;
        let mut pinned = free.clone();
        pinned.enforce_zero_rx = true;
        pinned.enforce_zero_ry = true;
        pinned.enforce_zero_rz = true;
        let unconstrained = solve_inverse_fdm(&problem, &target, free).unwrap();
        let constrained = solve_inverse_fdm(&problem, &target, pinned).unwrap();
        let unconstrained_reaction =
            fixed_reaction_norm(&problem, &edges, &target, &unconstrained.q);
        let constrained_reaction = fixed_reaction_norm(&problem, &edges, &target, &constrained.q);
        assert!(
            constrained_reaction < unconstrained_reaction,
            "{algebra:?} reaction rows should reduce the target-geometry reaction norm: \
             constrained={constrained_reaction}, unconstrained={unconstrained_reaction}"
        );
    }
}

#[test]
fn particular_method_ffi_mapping_includes_clarabel() {
    assert_eq!(
        ParticularMethod::try_from(0).unwrap(),
        ParticularMethod::Gram
    );
    assert_eq!(
        ParticularMethod::try_from(1).unwrap(),
        ParticularMethod::Augmented
    );
    assert_eq!(
        ParticularMethod::try_from(2).unwrap(),
        ParticularMethod::SparseQr
    );
    assert_eq!(
        ParticularMethod::try_from(3).unwrap(),
        ParticularMethod::Clarabel
    );
    assert!(ParticularMethod::try_from(4).is_err());
}

#[test]
fn unconstrained_clarabel_matches_tikhonov_and_solves_lambda_zero() {
    let (problem, edges) = arch_problem(false);
    let (target, _) = forward_target(&problem, &[1.25; 8]);
    let lambda = 1e-5;
    let clarabel = solve_inverse_fdm(
        &problem,
        &target,
        inverse_opts(
            lambda,
            true,
            ParticularMethod::Clarabel,
            LinearAlgebra::Direct,
            true,
        ),
    )
    .unwrap();
    let tikhonov = solve_inverse_fdm(
        &problem,
        &target,
        inverse_opts(
            lambda,
            true,
            ParticularMethod::Augmented,
            LinearAlgebra::Direct,
            true,
        ),
    )
    .unwrap();
    for (left, right) in clarabel.q.iter().zip(&tikhonov.q) {
        assert!(
            (left - right).abs() < 2e-4,
            "Clarabel {left} vs Tikhonov {right}"
        );
    }

    let zero = solve_inverse_fdm(
        &problem,
        &target,
        inverse_opts(
            0.0,
            true,
            ParticularMethod::Clarabel,
            LinearAlgebra::Direct,
            true,
        ),
    )
    .unwrap();
    assert!(equilibrium_residual(&problem, &edges, &target, &zero.q) < 1e-6);
}

#[test]
fn direct_mp_errors_on_singular_saddle_but_zero_lambda_lsqr_is_minimum_norm() {
    let (problem, target) = duplicate_edge_problem();
    let direct = solve_inverse_fdm(
        &problem,
        &target,
        inverse_opts(
            0.0,
            true,
            ParticularMethod::Augmented,
            LinearAlgebra::Direct,
            true,
        ),
    )
    .unwrap_err();
    let message = direct.to_string();
    assert!(message.contains("Iterative LSQR"), "{message}");
    assert!(message.contains("lambda=0"), "{message}");

    let iterative = solve_inverse_fdm(
        &problem,
        &target,
        inverse_opts(
            0.0,
            true,
            ParticularMethod::Gram,
            LinearAlgebra::Iterative,
            true,
        ),
    )
    .unwrap();
    assert!(iterative.converged);
    assert!(iterative.iterations > 0);
    assert!((iterative.q[0] - iterative.q[1]).abs() < 1e-9);
    assert!((iterative.q[0] - 1.0).abs() < 1e-7, "{:?}", iterative.q);
}

#[test]
fn direct_mp_matches_zero_lambda_lsqr_when_saddle_is_nonsingular() {
    let (problem, target) = near_flat_problem();
    let direct = solve_inverse_fdm(
        &problem,
        &target,
        inverse_opts(
            0.0,
            true,
            ParticularMethod::Augmented,
            LinearAlgebra::Direct,
            false,
        ),
    )
    .unwrap();
    let iterative = solve_inverse_fdm(
        &problem,
        &target,
        inverse_opts(
            0.0,
            true,
            ParticularMethod::Clarabel,
            LinearAlgebra::Iterative,
            false,
        ),
    )
    .unwrap();
    for (mp, lsqr) in direct.q.iter().zip(&iterative.q) {
        assert!(
            (mp - lsqr).abs() < 1e-8 * lsqr.abs().max(1.0),
            "Direct MP {mp} vs LSQR {lsqr}"
        );
    }
}

#[test]
fn regularized_lsqr_matches_direct_solvers_and_reports_iterations() {
    let (problem, _) = arch_problem(false);
    let (target, _) = forward_target(&problem, &[1.25; 8]);
    let lambda = 1e-4;
    let iterative = solve_inverse_fdm(
        &problem,
        &target,
        inverse_opts(
            lambda,
            true,
            ParticularMethod::SparseQr,
            LinearAlgebra::Iterative,
            true,
        ),
    )
    .unwrap();
    let tikhonov = solve_inverse_fdm(
        &problem,
        &target,
        inverse_opts(
            lambda,
            true,
            ParticularMethod::Augmented,
            LinearAlgebra::Direct,
            true,
        ),
    )
    .unwrap();
    let gram = solve_inverse_fdm(
        &problem,
        &target,
        inverse_opts(
            lambda,
            true,
            ParticularMethod::Gram,
            LinearAlgebra::Direct,
            true,
        ),
    )
    .unwrap();
    assert!(iterative.converged);
    assert!(iterative.iterations > 1);
    for ((lsqr, saddle), normal) in iterative.q.iter().zip(&tikhonov.q).zip(&gram.q) {
        assert!(
            (lsqr - saddle).abs() < 2e-5,
            "LSQR {lsqr} vs saddle {saddle}"
        );
        assert!((lsqr - normal).abs() < 2e-5, "LSQR {lsqr} vs Gram {normal}");
    }
}

#[test]
fn iterative_ignores_every_direct_particular_selection() {
    let (problem, _) = arch_problem(false);
    let (target, _) = forward_target(&problem, &[1.25; 8]);
    let methods = [
        ParticularMethod::Gram,
        ParticularMethod::Augmented,
        ParticularMethod::SparseQr,
        ParticularMethod::Clarabel,
    ];
    let baseline = solve_inverse_fdm(
        &problem,
        &target,
        inverse_opts(1e-5, true, methods[0], LinearAlgebra::Iterative, true),
    )
    .unwrap();
    for method in methods.into_iter().skip(1) {
        let result = solve_inverse_fdm(
            &problem,
            &target,
            inverse_opts(1e-5, true, method, LinearAlgebra::Iterative, true),
        )
        .unwrap();
        assert_eq!(result.iterations, baseline.iterations);
        for (left, right) in result.q.iter().zip(&baseline.q) {
            assert!(
                (left - right).abs() < 1e-12,
                "{method:?}: {left} vs {right}"
            );
        }
    }
}

#[test]
fn regularization_materially_changes_scaled_lsqr_fixture() {
    let (problem, target) = near_flat_problem();
    let zero = solve_inverse_fdm(
        &problem,
        &target,
        inverse_opts(
            0.0,
            true,
            ParticularMethod::Gram,
            LinearAlgebra::Iterative,
            false,
        ),
    )
    .unwrap();
    let regularized = solve_inverse_fdm(
        &problem,
        &target,
        inverse_opts(
            1e-2,
            true,
            ParticularMethod::Gram,
            LinearAlgebra::Iterative,
            false,
        ),
    )
    .unwrap();
    assert!(
        max_abs(&regularized.q) < 0.5 * max_abs(&zero.q),
        "lambda did not materially change LSQR: zero={:?}, regularized={:?}",
        zero.q,
        regularized.q
    );
}

#[test]
fn sparse_qr_rejects_wide_and_rank_deficient_systems() {
    let (rank_deficient, target) = duplicate_edge_problem();
    let error = solve_inverse_fdm(
        &rank_deficient,
        &target,
        inverse_opts(
            0.0,
            true,
            ParticularMethod::SparseQr,
            LinearAlgebra::Direct,
            true,
        ),
    )
    .unwrap_err()
    .to_string();
    assert!(
        error.contains("full column rank") || error.contains("rows >= columns"),
        "{error}"
    );
}

/// Nudge a target off the equilibrium manifold so it is near- but not exactly
/// funicular.
fn perturb(target: &Array2<f64>, amount: f64) -> Array2<f64> {
    Array2::from_shape_fn(target.dim(), |(i, d)| {
        let wobble = ((i * 3 + d) as f64 * 1.7).sin();
        target[[i, d]] + amount * wobble
    })
}

fn column_norm(v: &Array2<f64>) -> f64 {
    v.iter().map(|x| x * x).sum::<f64>().sqrt()
}

#[test]
fn geometric_error_identity_matches_an_independent_forward_solve() {
    // The whole geometric metric rests on x(q) - x* = -D(q)^-1 (E(x*)q - p).
    // Check it against a real forward solve rather than against itself.
    let (problem, _) = arch_problem(false);
    let q = vec![1.3, 0.7, 2.1, 0.9, 1.6, 1.1, 0.5, 2.4];
    let (funicular, _) = forward_target(&problem, &q);

    for amount in [0.0, 1e-3, 0.05, 0.4] {
        let target = perturb(&funicular, amount);
        let predicted = geometric_error_vector(&problem, &target, &q).unwrap();
        let actual =
            Array2::from_shape_fn(funicular.dim(), |(i, d)| funicular[[i, d]] - target[[i, d]]);

        for i in 0..actual.nrows() {
            for d in 0..3 {
                assert!(
                    (predicted[[i, d]] - actual[[i, d]]).abs() < 1e-9,
                    "identity failed at node {i} axis {d} for perturbation {amount}: \
                     predicted {} vs forward-solved {}",
                    predicted[[i, d]],
                    actual[[i, d]]
                );
            }
        }
    }
}

#[test]
fn geometric_error_is_zero_when_the_target_is_already_funicular() {
    let (problem, _) = arch_problem(false);
    let q = vec![1.0, 1.4, 0.8, 1.2, 0.6, 1.9, 1.1, 0.7];
    let (funicular, _) = forward_target(&problem, &q);

    let error = geometric_error_vector(&problem, &funicular, &q).unwrap();
    assert!(
        column_norm(&error) < 1e-10,
        "expected a funicular target to have zero geometric error, got {}",
        column_norm(&error)
    );
}

fn geometric_opts(
    metric: InverseMetric,
    particular: ParticularMethod,
    algebra: LinearAlgebra,
    lambda: f64,
) -> InverseFdmOptions {
    InverseFdmOptions {
        metric,
        // A positive box keeps the Laplacian SPD, which the compliance needs.
        signs: vec![1],
        lower: vec![1e-6],
        max_outer: 12,
        tol: 1e-10,
        ..inverse_opts(lambda, true, particular, algebra, true)
    }
}

/// Distance from the forward solve to the target for a recovered q.
fn achieved_error(problem: &Problem, target: &Array2<f64>, q: &[f64]) -> f64 {
    let (reached, _) = forward_target(problem, q);
    let mut sum = 0.0;
    for i in 0..target.nrows() {
        for d in 0..3 {
            let diff = reached[[i, d]] - target[[i, d]];
            sum += diff * diff;
        }
    }
    sum.sqrt()
}

#[test]
fn geometric_metric_lands_closer_to_a_near_funicular_target_than_the_force_metric() {
    let (problem, _) = arch_problem(false);
    let q = vec![1.2, 0.9, 1.5, 1.1, 0.8, 1.3, 0.6, 1.7];
    let (funicular, _) = forward_target(&problem, &q);
    let target = perturb(&funicular, 0.02);

    let force = solve_inverse_fdm(
        &problem,
        &target,
        geometric_opts(
            InverseMetric::Force,
            ParticularMethod::Clarabel,
            LinearAlgebra::Direct,
            1e-8,
        ),
    )
    .unwrap();
    let geometry = solve_inverse_fdm(
        &problem,
        &target,
        geometric_opts(
            InverseMetric::Geometry,
            ParticularMethod::Clarabel,
            LinearAlgebra::Direct,
            1e-8,
        ),
    )
    .unwrap();
    let newton = solve_inverse_fdm(
        &problem,
        &target,
        geometric_opts(
            InverseMetric::GeometryNewton,
            ParticularMethod::Clarabel,
            LinearAlgebra::Direct,
            1e-8,
        ),
    )
    .unwrap();

    let force_error = achieved_error(&problem, &target, &force.q);
    let geometry_error = achieved_error(&problem, &target, &geometry.q);
    let newton_error = achieved_error(&problem, &target, &newton.q);
    assert!(
        geometry_error < force_error,
        "geometric metric ({geometry_error:.6e}) should beat the force metric \
         ({force_error:.6e})"
    );
    assert!(
        newton_error <= geometry_error * 1.05,
        "Gauss-Newton ({newton_error:.6e}) should not be worse than the frozen-target \
         metric ({geometry_error:.6e})"
    );
}

#[test]
fn reported_geometric_error_matches_the_forward_solve() {
    let (problem, _) = arch_problem(false);
    let q = vec![1.1, 1.4, 0.9, 1.2, 1.0, 1.5, 0.7, 1.3];
    let (funicular, _) = forward_target(&problem, &q);
    let target = perturb(&funicular, 0.03);

    let result = solve_inverse_fdm(
        &problem,
        &target,
        geometric_opts(
            InverseMetric::GeometryNewton,
            ParticularMethod::Clarabel,
            LinearAlgebra::Direct,
            1e-8,
        ),
    )
    .unwrap();

    let measured = achieved_error(&problem, &target, &result.q);
    assert!(
        (result.geometric_error - measured).abs() < 1e-7,
        "reported geometric error {} disagrees with the forward solve {measured}",
        result.geometric_error
    );
}

#[test]
fn geometric_backends_agree_on_the_same_weighted_problem() {
    let (problem, _) = arch_problem(false);
    let q = vec![1.0, 1.2, 0.9, 1.1, 1.3, 0.8, 1.4, 1.0];
    let (funicular, _) = forward_target(&problem, &q);
    let target = perturb(&funicular, 0.02);

    let cases = [
        (
            "clarabel",
            ParticularMethod::Clarabel,
            LinearAlgebra::Direct,
        ),
        ("saddle", ParticularMethod::Augmented, LinearAlgebra::Direct),
        ("spg", ParticularMethod::Clarabel, LinearAlgebra::Iterative),
    ];

    let mut errors = Vec::new();
    for (name, particular, algebra) in cases {
        let result = solve_inverse_fdm(
            &problem,
            &target,
            geometric_opts(InverseMetric::Geometry, particular, algebra, 1e-8),
        )
        .unwrap_or_else(|e| panic!("{name} failed: {e}"));
        let error = achieved_error(&problem, &target, &result.q);
        errors.push((name, error));
    }

    let best = errors.iter().map(|(_, e)| *e).fold(f64::MAX, f64::min);
    for (name, error) in &errors {
        assert!(
            *error <= best * 10.0 + 1e-9,
            "{name} reached {error:.6e}, far off the best backend {best:.6e}"
        );
    }
}

#[test]
fn gram_and_sparse_qr_can_initialize_geometric_stage_two() {
    let (problem, _) = arch_problem(false);
    let q = vec![1.0; 8];
    let (funicular, _) = forward_target(&problem, &q);

    for particular in [ParticularMethod::Gram, ParticularMethod::SparseQr] {
        let result = solve_inverse_fdm(
            &problem,
            &funicular,
            InverseFdmOptions {
                metric: InverseMetric::Geometry,
                max_outer: 4,
                ..inverse_opts(1e-8, true, particular, LinearAlgebra::Direct, true)
            },
        )
        .unwrap_or_else(|error| panic!("{particular:?} initializer failed: {error}"));
        assert!(result.q.iter().all(|q| q.is_finite()));
        assert!(result.geometric_error < 1e-6);
    }
}

#[test]
fn geometric_metric_rejects_l1() {
    let (problem, _) = arch_problem(false);
    let q = vec![1.0; 8];
    let (funicular, _) = forward_target(&problem, &q);

    let error = solve_inverse_fdm(
        &problem,
        &funicular,
        InverseFdmOptions {
            metric: InverseMetric::Geometry,
            max_outer: 4,
            ..inverse_opts(
                1e-8,
                false,
                ParticularMethod::Clarabel,
                LinearAlgebra::Direct,
                true,
            )
        },
    )
    .expect_err("expected the geometric metric to reject IRLS");
    assert!(
        error.to_string().contains("L1/IRLS"),
        "unexpected rejection message: {error}"
    );
}

#[test]
fn force_metric_is_unchanged_by_the_metric_plumbing() {
    // Same fixture and options as the unweighted path; only the default
    // fields are present. The recovered q must still round-trip exactly.
    let (problem, _) = triangle_problem();
    let expected = vec![2.0, 3.0];
    let (target, _) = forward_target(&problem, &expected);

    let result = solve_inverse_fdm(
        &problem,
        &target,
        inverse_opts(
            0.0,
            true,
            ParticularMethod::Augmented,
            LinearAlgebra::Direct,
            true,
        ),
    )
    .unwrap();

    for (got, want) in result.q.iter().zip(&expected) {
        assert!(
            (got - want).abs() < 1e-8,
            "force metric changed: got {got}, expected {want}"
        );
    }
}

fn square_grid_problem(side: usize) -> (Problem, Vec<f64>) {
    let node = |row: usize, col: usize| row * side + col;
    let mut edges = Vec::new();
    for row in 0..side {
        for col in 0..side {
            if col + 1 < side {
                edges.push((node(row, col), node(row, col + 1)));
            }
            if row + 1 < side {
                edges.push((node(row, col), node(row + 1, col)));
            }
        }
    }
    let fixed = vec![
        node(0, 0),
        node(0, side - 1),
        node(side - 1, 0),
        node(side - 1, side - 1),
    ];
    let free: Vec<usize> = (0..side * side)
        .filter(|index| !fixed.contains(index))
        .collect();
    let fixed_positions = Array2::from_shape_fn((4, 3), |(i, axis)| {
        let locations = [
            [0.0, 0.0, 0.0],
            [(side - 1) as f64, 0.0, 0.0],
            [0.0, (side - 1) as f64, 0.0],
            [(side - 1) as f64, (side - 1) as f64, 0.0],
        ];
        locations[i][axis]
    });
    let mut loads = Array2::zeros((free.len(), 3));
    for i in 0..free.len() {
        loads[[i, 2]] = -1.0;
    }
    let problem = make_problem(&edges, side * side, free, fixed, loads, fixed_positions);

    let mut state = 0x5eed_u64;
    let q = (0..edges.len())
        .map(|_| {
            state = state.wrapping_mul(6364136223846793005).wrapping_add(1);
            let unit = ((state >> 32) as u32) as f64 / u32::MAX as f64;
            10.0_f64.powf(-3.0 + 5.0 * unit)
        })
        .collect();
    (problem, q)
}

fn jitter_z(target: &Array2<f64>) -> Array2<f64> {
    let mut state = 0xc0ffee_u64;
    let mut result = target.clone();
    for i in 0..result.nrows() {
        state = state
            .wrapping_mul(2862933555777941757)
            .wrapping_add(3037000493);
        let unit = ((state >> 32) as u32) as f64 / u32::MAX as f64;
        result[[i, 2]] += 0.2 * unit - 0.1;
    }
    result
}

#[test]
fn staged_metrics_run_on_deterministic_corner_anchored_grid() {
    let (problem, known_q) = square_grid_problem(4);
    let (funicular, _) = forward_target(&problem, &known_q);
    let target = jitter_z(&funicular);
    let mut results = Vec::new();
    for metric in [
        InverseMetric::Force,
        InverseMetric::Geometry,
        InverseMetric::GeometryNewton,
    ] {
        let mut opts = inverse_opts(
            1e-8,
            true,
            ParticularMethod::Clarabel,
            LinearAlgebra::Direct,
            false,
        );
        opts.metric = metric;
        opts.lower = vec![1e-3];
        opts.upper = vec![100.0];
        let result = solve_inverse_fdm(&problem, &target, opts).unwrap();
        assert!(result
            .q
            .iter()
            .all(|q| q.is_finite() && (1e-3 - 1e-8..=100.0 + 1e-8).contains(q)));
        assert!(result.geometric_error.is_finite());
        results.push(result.geometric_error);
    }
    assert!(
        results[1] <= results[0] * 1.05 && results[2] <= results[0] * 1.05,
        "staged metrics should preserve or improve geometry: {results:?}"
    );
}

#[test]
fn stage_one_initializes_geometry_and_lower_bound_is_sensitive() {
    let (problem, known_q) = square_grid_problem(4);
    let (funicular, _) = forward_target(&problem, &known_q);

    let mut force_opts = inverse_opts(
        1e-8,
        true,
        ParticularMethod::Gram,
        LinearAlgebra::Direct,
        true,
    );
    force_opts.lower = vec![1e-3];
    let stage_one = solve_inverse_fdm(&problem, &funicular, force_opts.clone()).unwrap();
    force_opts.metric = InverseMetric::Geometry;
    let staged = solve_inverse_fdm(&problem, &funicular, force_opts).unwrap();
    assert!(staged.geometric_error <= stage_one.geometric_error + 1e-8);

    let target = jitter_z(&funicular);
    let mut low = inverse_opts(
        0.0,
        true,
        ParticularMethod::Clarabel,
        LinearAlgebra::Direct,
        false,
    );
    low.lower = vec![1e-3];
    low.upper = vec![100.0];
    let mut high = low.clone();
    high.lower = vec![10.0];
    let low_result = solve_inverse_fdm(&problem, &target, low).unwrap();
    let high_result = solve_inverse_fdm(&problem, &target, high).unwrap();
    assert!(high_result.q.iter().all(|q| *q >= 10.0 - 1e-7));
    assert!(low_result
        .q
        .iter()
        .zip(&high_result.q)
        .any(|(left, right)| (left - right).abs() > 1e-3));
}

#[test]
fn mixed_sign_and_compression_geometric_identity_match_forward_solve() {
    let (problem, _) = arch_problem(false);
    for q in [
        vec![1.3, -0.7, 2.1, -0.9, 1.6, -1.1, 0.5, 2.4],
        vec![-1.3, -0.7, -2.1, -0.9, -1.6, -1.1, -0.5, -2.4],
    ] {
        let (funicular, _) = forward_target(&problem, &q);
        let target = perturb(&funicular, 0.02);
        let predicted = geometric_error_vector(&problem, &target, &q).unwrap();
        let actual =
            Array2::from_shape_fn(funicular.dim(), |(i, d)| funicular[[i, d]] - target[[i, d]]);
        for (left, right) in predicted.iter().zip(actual.iter()) {
            assert!((left - right).abs() < 1e-8, "{left} != {right}");
        }
    }
}

#[test]
fn mixed_sign_geometric_direct_and_iterative_backends_agree() {
    let (problem, _) = arch_problem(false);
    let q = vec![1.3, -0.7, 2.1, -0.9, 1.6, -1.1, 0.5, 2.4];
    let (funicular, _) = forward_target(&problem, &q);
    let target = perturb(&funicular, 0.01);
    let mut errors = Vec::new();
    for algebra in [LinearAlgebra::Direct, LinearAlgebra::Iterative] {
        let mut opts = inverse_opts(1e-8, true, ParticularMethod::Gram, algebra, true);
        opts.metric = InverseMetric::Geometry;
        opts.q_ref = q.clone();
        opts.max_iter = 8_000;
        opts.tol = 1e-8;
        let result = solve_inverse_fdm(&problem, &target, opts).unwrap();
        errors.push(result.geometric_error);
    }
    let scale = errors[0].max(errors[1]).max(1e-12);
    assert!((errors[0] - errors[1]).abs() <= 0.1 * scale, "{errors:?}");
}

#[test]
fn mixed_sign_particular_initializes_cwls_in_q_and_force_coordinates() {
    let (problem, _) = arch_problem(false);
    let known_q = vec![1.3, -0.7, 2.1, -0.9, 1.6, -1.1, 0.5, 2.4];
    let signs: Vec<i32> = known_q
        .iter()
        .map(|value| if *value > 0.0 { 1 } else { -1 })
        .collect();
    let lower: Vec<f64> = signs
        .iter()
        .map(|sign| if *sign > 0 { 0.1 } else { -3.0 })
        .collect();
    let upper: Vec<f64> = signs
        .iter()
        .map(|sign| if *sign > 0 { 3.0 } else { -0.1 })
        .collect();
    let (funicular, _) = forward_target(&problem, &known_q);
    let target = perturb(&funicular, 0.005);

    for solve_for_q in [true, false] {
        let mut opts = inverse_opts(
            1e-6,
            true,
            ParticularMethod::Clarabel,
            LinearAlgebra::Direct,
            solve_for_q,
        );
        opts.metric = InverseMetric::GeometryNewton;
        opts.signs = signs.clone();
        opts.lower = lower.clone();
        opts.upper = upper.clone();
        opts.q_ref.clear();
        let result = solve_inverse_fdm(&problem, &target, opts).unwrap();
        assert!(result.geometric_error.is_finite());
        for (edge, value) in result.q.iter().enumerate() {
            assert!(
                (lower[edge] - 1e-7..=upper[edge] + 1e-7).contains(value),
                "solve_for_q={solve_for_q}, edge={edge}, q={value}"
            );
        }
    }
}

#[test]
fn singular_mixed_sign_cancellation_is_rejected() {
    let (problem, target) = duplicate_edge_problem();
    let error = geometric_error_vector(&problem, &target, &[1.0, -1.0])
        .unwrap_err()
        .to_string();
    assert!(
        error.contains("nonsingular") || error.contains("factorization"),
        "{error}"
    );
}

#[test]
fn geometric_exact_stage_one_is_converged_without_a_step() {
    let (problem, _) = arch_problem(false);
    let q = vec![1.0; 8];
    let (target, _) = forward_target(&problem, &q);
    let mut opts = geometric_opts(
        InverseMetric::Geometry,
        ParticularMethod::Clarabel,
        LinearAlgebra::Direct,
        0.0,
    );
    opts.q_ref = q;
    opts.max_outer = 1;
    let result = solve_inverse_fdm(&problem, &target, opts).unwrap();
    assert!(result.converged);
    assert_eq!(result.iterations, 0);
    assert!(result.geometric_error < 1e-10);
}

#[test]
fn geometric_blocked_step_is_not_reported_converged() {
    let (problem, _) = arch_problem(false);
    let q = vec![1.0; 8];
    let (funicular, _) = forward_target(&problem, &q);
    let target = perturb(&funicular, 0.02);
    let mut opts = geometric_opts(
        InverseMetric::Geometry,
        ParticularMethod::Clarabel,
        LinearAlgebra::Direct,
        0.0,
    );
    opts.q_ref = q.clone();
    opts.lower = q.clone();
    opts.upper = q;
    opts.max_outer = 1;
    let result = solve_inverse_fdm(&problem, &target, opts).unwrap();
    assert!(!result.converged);
    assert!(result.geometric_error > 1e-8);
}

#[test]
fn frozen_cwls_honors_a_single_update_budget() {
    let (problem, known_q) = square_grid_problem(4);
    let (funicular, _) = forward_target(&problem, &known_q);
    let target = jitter_z(&funicular);
    let mut opts = geometric_opts(
        InverseMetric::Geometry,
        ParticularMethod::Clarabel,
        LinearAlgebra::Direct,
        1e-8,
    );
    opts.max_outer = 1;
    opts.tol = 1e-12;
    let result = solve_inverse_fdm(&problem, &target, opts).unwrap();
    assert_eq!(result.iterations, 1);
}

#[test]
fn phased_frozen_only_matches_legacy_frozen_metric() {
    let (problem, known_q) = square_grid_problem(4);
    let (funicular, _) = forward_target(&problem, &known_q);
    let target = jitter_z(&funicular);

    let mut legacy = geometric_opts(
        InverseMetric::Geometry,
        ParticularMethod::Clarabel,
        LinearAlgebra::Direct,
        1e-8,
    );
    legacy.max_outer = 3;
    legacy.tol = 1e-12;
    let legacy_result = solve_inverse_fdm(&problem, &target, legacy).unwrap();

    let mut phased = geometric_opts(
        InverseMetric::GeometryNewton,
        ParticularMethod::Clarabel,
        LinearAlgebra::Direct,
        1e-8,
    );
    phased.max_frozen_outer = 3;
    phased.max_outer = 0;
    phased.tol = 1e-12;
    let phased_result = solve_inverse_fdm(&problem, &target, phased).unwrap();

    assert_eq!(phased_result.iterations, legacy_result.iterations);
    assert!((phased_result.geometric_error - legacy_result.geometric_error).abs() < 1e-10);
    for (actual, expected) in phased_result.q.iter().zip(&legacy_result.q) {
        assert!((actual - expected).abs() < 1e-10);
    }
}

#[test]
fn zero_geometric_phase_budgets_return_stage_one() {
    let (problem, known_q) = square_grid_problem(4);
    let (funicular, _) = forward_target(&problem, &known_q);
    let target = jitter_z(&funicular);

    let force = solve_inverse_fdm(
        &problem,
        &target,
        geometric_opts(
            InverseMetric::Force,
            ParticularMethod::Clarabel,
            LinearAlgebra::Direct,
            1e-8,
        ),
    )
    .unwrap();
    let mut stage_one_only = geometric_opts(
        InverseMetric::GeometryNewton,
        ParticularMethod::Clarabel,
        LinearAlgebra::Direct,
        1e-8,
    );
    stage_one_only.max_frozen_outer = 0;
    stage_one_only.max_outer = 0;
    let result = solve_inverse_fdm(&problem, &target, stage_one_only).unwrap();

    assert_eq!(result.iterations, 0);
    for (actual, expected) in result.q.iter().zip(&force.q) {
        assert!((actual - expected).abs() < 1e-10);
    }
}

#[test]
fn sequential_phases_preserve_the_best_frozen_result() {
    let (problem, known_q) = square_grid_problem(4);
    let (funicular, _) = forward_target(&problem, &known_q);
    let target = jitter_z(&funicular);

    let mut frozen = geometric_opts(
        InverseMetric::Geometry,
        ParticularMethod::Clarabel,
        LinearAlgebra::Direct,
        1e-8,
    );
    frozen.max_outer = 3;
    frozen.tol = 1e-12;
    let frozen_result = solve_inverse_fdm(&problem, &target, frozen).unwrap();

    let mut sequential = geometric_opts(
        InverseMetric::GeometryNewton,
        ParticularMethod::Clarabel,
        LinearAlgebra::Direct,
        1e-8,
    );
    sequential.max_frozen_outer = 3;
    sequential.max_outer = 3;
    sequential.tol = 1e-12;
    let sequential_result = solve_inverse_fdm(&problem, &target, sequential).unwrap();

    assert!(
        sequential_result.geometric_error <= frozen_result.geometric_error + 1e-10,
        "sequential error {} exceeded frozen error {}",
        sequential_result.geometric_error,
        frozen_result.geometric_error
    );
}

#[test]
fn geometry_newton_honors_a_budget_above_the_default() {
    let (problem, known_q) = square_grid_problem(4);
    let (funicular, _) = forward_target(&problem, &known_q);
    let target = jitter_z(&funicular);
    let mut opts = geometric_opts(
        InverseMetric::GeometryNewton,
        ParticularMethod::Clarabel,
        LinearAlgebra::Direct,
        1e-8,
    );
    opts.max_outer = DEFAULT_MAX_OUTER + 2;
    opts.tol = 1e-12;
    let requested = opts.max_outer;
    let result = solve_inverse_fdm(&problem, &target, opts).unwrap();
    assert!(
        result.iterations > DEFAULT_MAX_OUTER,
        "requested {} updates, but only {} ran",
        requested,
        result.iterations
    );
    assert!(result.iterations <= requested);
}

#[test]
fn public_q_bounds_hold_for_q_and_member_force_stage_one() {
    let (problem, _) = triangle_problem();
    let (target, _) = forward_target(&problem, &[2.0, 3.0]);
    for solve_for_q in [true, false] {
        let mut opts = inverse_opts(
            0.0,
            true,
            ParticularMethod::Clarabel,
            LinearAlgebra::Direct,
            solve_for_q,
        );
        opts.lower = vec![2.5];
        opts.upper = vec![2.75];
        let result = solve_inverse_fdm(&problem, &target, opts).unwrap();
        assert!(
            result
                .q
                .iter()
                .all(|q| (2.5 - 1e-7..=2.75 + 1e-7).contains(q)),
            "solve_for_q={solve_for_q}: {:?}",
            result.q
        );
    }
}

fn options(max_modes: usize) -> NullspaceOptions {
    NullspaceOptions {
        max_modes,
        tolerance: 1e-9,
        ..NullspaceOptions::default()
    }
}

fn subspace_projection_error(reference: &Array2<f64>, candidate: &Array2<f64>) -> f64 {
    let mut worst = 0.0_f64;
    for j in 0..reference.ncols() {
        let mut captured = 0.0;
        for k in 0..candidate.ncols() {
            let dot = (0..reference.nrows())
                .map(|i| reference[[i, j]] * candidate[[i, k]])
                .sum::<f64>();
            captured += dot * dot;
        }
        worst = worst.max((1.0 - captured).abs().sqrt());
    }
    worst
}

#[test]
fn reduced_four_bar_with_fixed_side_has_one_mechanism() {
    // A planar four-bar after eliminating the fixed side's coordinates. The
    // fifth equilibrium row is dependent, so rank(A)=4, s=0, and m=1.
    let a = SparseColMatOwned::from_coo(
        5,
        4,
        &[0, 1, 2, 3, 4, 4],
        &[0, 1, 2, 3, 0, 1],
        &[1.0, 1.0, 1.0, 1.0, 1.0, 1.0],
    )
    .unwrap();
    let system = EquilibriumSystem {
        a,
        p: vec![0.0; 5],
        lengths: vec![1.0; 4],
        n_eq: 5,
        n_edges: 4,
        free_positions: Array2::zeros((0, 3)),
        n_free: 0,
    };
    let report = analyze_projector(&system, &options(4)).unwrap();

    assert_eq!(
        (report.rank, report.s, report.m_raw, report.m),
        (4, 0, 1, 1)
    );
}

#[test]
fn sparse_qr_comparison_reports_valid_full_column_rank_fixture() {
    let a = SparseColMatOwned::from_coo(
        5,
        4,
        &[0, 1, 2, 3, 4, 4],
        &[0, 1, 2, 3, 0, 1],
        &[1.0, 1.0, 1.0, 1.0, 1.0, 1.0],
    )
    .unwrap();
    let system = EquilibriumSystem {
        a,
        p: vec![1.0, -0.5, 0.25, 0.75, 0.5],
        lengths: vec![1.0; 4],
        n_eq: 5,
        n_edges: 4,
        free_positions: Array2::zeros((0, 3)),
        n_free: 0,
    };
    let report = analyze(
        &system,
        &NullspaceOptions {
            method: NullspaceMethod::SparseQr,
            ..options(4)
        },
    )
    .unwrap();

    assert_eq!(
        (report.rank, report.s, report.m_raw, report.m),
        (4, 0, 1, 1)
    );
    assert!(report.self_stress.is_empty());
    assert!(report.residual_ratio.is_finite());
}

#[test]
fn sparse_qr_comparison_rejects_unvalidated_rank_deficiency() {
    let a = SparseColMatOwned::from_coo(
        3,
        3,
        &[0, 1, 0, 1, 0, 1],
        &[0, 0, 1, 1, 2, 2],
        &[1.0, 2.0, 2.0, 4.0, -1.0, -2.0],
    )
    .unwrap();
    let system = EquilibriumSystem {
        a,
        p: vec![1.0, 2.0, 0.0],
        lengths: vec![1.0; 3],
        n_eq: 3,
        n_edges: 3,
        free_positions: Array2::zeros((0, 3)),
        n_free: 0,
    };
    let error = analyze(
        &system,
        &NullspaceOptions {
            method: NullspaceMethod::SparseQr,
            ..options(3)
        },
    )
    .unwrap_err();

    assert!(error
        .to_string()
        .contains("cannot establish full column rank"));
}

#[test]
fn prestressed_three_spoke_triangle_has_one_self_stress() {
    let positions = [
        [0.0, 0.0, 0.0],
        [2.0, 0.0, 0.0],
        [0.0, 2.0, 0.0],
        [0.6, 0.7, 0.0],
    ];
    let edges = [(3, 0), (3, 1), (3, 2)];
    let (problem, target) = problem(&edges, &positions, vec![3], vec![0, 1, 2], vec![0.0; 3]);
    let system = EquilibriumSystem::force(&problem, &target, false, false, false).unwrap();
    let report = analyze_projector(&system, &options(8)).unwrap();

    assert_eq!(report.rank, 2);
    assert_eq!(report.s, 1);
    assert_eq!(report.m_raw, 1);
    assert_eq!(
        report.s as isize - report.m_raw as isize,
        system.n_edges as isize - system.n_eq as isize
    );
}

#[test]
fn projector_and_dense_svd_agree_on_counts_and_subspaces() {
    let positions = [
        [0.0, 0.0, 0.0],
        [2.0, 0.0, 0.0],
        [0.0, 2.0, 0.0],
        [0.6, 0.7, 0.0],
    ];
    let edges = [(3, 0), (3, 1), (3, 2)];
    let (problem, target) = problem(
        &edges,
        &positions,
        vec![3],
        vec![0, 1, 2],
        vec![0.3, -0.2, 0.0],
    );
    let system = EquilibriumSystem::force(&problem, &target, false, false, false).unwrap();
    let projector = analyze_projector(&system, &options(8)).unwrap();
    let svd = analyze_dense_svd(&system, &options(8)).unwrap();

    assert_eq!(
        (projector.rank, projector.s, projector.m_raw),
        (svd.rank, svd.s, svd.m_raw)
    );
    assert!(subspace_projection_error(&svd.self_stress, &projector.self_stress) < 1e-6);
    assert!(subspace_projection_error(&svd.mechanisms, &projector.mechanisms) < 1e-6);
}

#[test]
fn planar_normal_load_stays_bounded_and_in_the_residual() {
    let positions = [
        [0.0, 0.0, 0.0],
        [2.0, 0.0, 0.0],
        [0.0, 2.0, 0.0],
        [0.6, 0.7, 0.0],
    ];
    let edges = [(3, 0), (3, 1), (3, 2)];
    let (problem, target) = problem(
        &edges,
        &positions,
        vec![3],
        vec![0, 1, 2],
        vec![0.0, 0.0, -2.0],
    );
    let system = EquilibriumSystem::force(&problem, &target, false, false, false).unwrap();
    let report = analyze_projector(&system, &options(2)).unwrap();

    assert!(report
        .particular_t
        .iter()
        .all(|value| value.is_finite() && value.abs() < 1e3));
    assert!((report.residual_r[2] - 2.0).abs() < 1e-8);
    assert!((report.residual_ratio - 1.0).abs() < 1e-8);
}

#[test]
fn planar_grid_projector_accepts_inconsistent_normal_load() {
    let n = 4;
    let positions: Vec<[f64; 3]> = (0..n)
        .flat_map(|row| (0..n).map(move |col| [col as f64, row as f64, 0.0]))
        .collect();
    let mut edges = Vec::new();
    for row in 0..n {
        for col in 0..n - 1 {
            edges.push((row * n + col, row * n + col + 1));
        }
    }
    for row in 0..n - 1 {
        for col in 0..n {
            edges.push((row * n + col, (row + 1) * n + col));
        }
    }
    let fixed = vec![0, n - 1, n * (n - 1), n * n - 1];
    let free: Vec<usize> = (0..n * n).filter(|node| !fixed.contains(node)).collect();
    let mut loads = vec![0.0; 3 * free.len()];
    for load in loads.iter_mut().skip(2).step_by(3) {
        *load = -1.0;
    }
    let (problem, target) = problem(&edges, &positions, free, fixed, loads);
    let system = EquilibriumSystem::force(&problem, &target, false, false, false).unwrap();
    let at = system.a.transpose();
    let mut worst_left_projector_residual = 0.0_f64;
    for row in 0..system.n_eq {
        let mut probe = vec![0.0; system.n_eq];
        probe[row] = 1.0;
        let at_probe = at.matvec(&probe);
        let range_component = apply_pseudoinverse(&at, &at_probe, 1e-9, 0).unwrap();
        let projected: Vec<f64> = probe
            .iter()
            .zip(range_component)
            .map(|(probe, range)| probe - range)
            .collect();
        worst_left_projector_residual = worst_left_projector_residual.max(
            at.matvec(&projected)
                .iter()
                .map(|v| v * v)
                .sum::<f64>()
                .sqrt(),
        );
    }
    assert!(worst_left_projector_residual < 1e-7);

    let report = analyze_projector(&system, &options(32)).unwrap();

    assert_eq!((report.rank, report.s, report.m_raw), (20, 4, 16));
    assert!((report.residual_ratio - 1.0).abs() < 1e-8);
    assert!(report.particular_t.iter().all(|value| value.is_finite()));
    assert!(
        report
            .particular_t
            .iter()
            .map(|value| value * value)
            .sum::<f64>()
            .sqrt()
            < 1e-8
    );
}

#[test]
fn unconstrained_tetrahedron_strips_six_rigid_body_modes() {
    let positions = [
        [0.0, 0.0, 0.0],
        [1.0, 0.0, 0.0],
        [0.2, 1.1, 0.0],
        [0.3, 0.4, 1.2],
    ];
    let edges = [(0, 1), (0, 2), (0, 3), (1, 2), (1, 3), (2, 3)];
    let (problem, target) = problem(&edges, &positions, vec![0, 1, 2, 3], vec![], vec![0.0; 12]);
    let system = EquilibriumSystem::force(&problem, &target, false, false, false).unwrap();
    let report = analyze_projector(&system, &options(12)).unwrap();

    assert_eq!(report.rank, 6);
    assert_eq!(report.s, 0);
    assert_eq!(report.m_raw, 6);
    assert_eq!(report.n_rigid, 6);
    assert_eq!(report.m, 0);
    assert_eq!(report.mechanisms.ncols(), 0);
}

#[test]
fn max_modes_caps_returned_bases_without_changing_counts() {
    let positions = [
        [0.0, 0.0, 0.0],
        [1.0, 0.0, 0.0],
        [0.0, 1.0, 0.0],
        [1.0, 1.0, 0.0],
    ];
    let edges = [(0, 1), (2, 3)];
    let (problem, target) = problem(&edges, &positions, vec![0, 1, 2, 3], vec![], vec![0.0; 12]);
    let system = EquilibriumSystem::force(&problem, &target, false, false, false).unwrap();
    let report = analyze_projector(&system, &options(1)).unwrap();

    assert!(report.m > 1);
    assert!(report.self_stress.ncols() <= 1);
    assert_eq!(report.mechanisms.ncols(), 1);
    assert_eq!(report.m_raw, system.n_eq - report.rank);
}

#[test]
fn force_and_density_moore_penrose_particulars_differ_with_lengths() {
    let positions = [
        [0.0, 0.0, 0.0],
        [3.0, 0.0, 0.0],
        [0.0, 1.0, 0.0],
        [0.7, 0.4, 0.0],
    ];
    let edges = [(3, 0), (3, 1), (3, 2)];
    let (problem, target) = problem(
        &edges,
        &positions,
        vec![3],
        vec![0, 1, 2],
        vec![1.0, -0.4, 0.0],
    );
    let density_system = EquilibriumSystem::assemble(
        &problem,
        &target,
        EquilibriumUnknown::ForceDensity,
        false,
        false,
        false,
    )
    .unwrap();
    let q_mp = apply_pseudoinverse(
        &density_system.a,
        &density_system.p,
        options(32).tolerance,
        0,
    )
    .unwrap();
    let q_from_t = solve_inverse_fdm_default(&problem, &target, false, false, false).unwrap();
    let difference = q_mp
        .iter()
        .zip(&q_from_t)
        .map(|(left, right)| (left - right).powi(2))
        .sum::<f64>()
        .sqrt();

    assert!(difference > 1e-4, "q-MP and mapped t-MP unexpectedly agree");
}

#[test]
fn length_retraction_restores_distinct_member_lengths() {
    let positions = [[0.0, 0.0, 0.0], [3.0, 0.0, 0.0], [0.8, 1.1, 0.0]];
    let edges = [(2, 0), (2, 1)];
    let (problem, target) = problem(&edges, &positions, vec![2], vec![0, 1], vec![0.0; 3]);
    let reference = EquilibriumSystem::force(&problem, &target, false, false, false).unwrap();
    assert!((reference.lengths[0] - reference.lengths[1]).abs() > 0.5);

    let displaced = Array2::from_shape_vec((1, 3), vec![1.15, 0.72, 0.35]).unwrap();
    let result = retract_member_lengths(
        &problem,
        &displaced,
        &reference.lengths,
        &LengthRetractionOptions {
            tolerance: 1e-11,
            ..LengthRetractionOptions::default()
        },
    )
    .unwrap();
    let restored =
        EquilibriumSystem::force(&problem, &result.positions, false, false, false).unwrap();

    assert!(result.converged);
    assert!(result.iterations > 0);
    for (actual, expected) in restored.lengths.iter().zip(&reference.lengths) {
        assert!((actual - expected).abs() < 1e-9);
    }
}

#[test]
fn lsqr_retraction_uses_only_radial_row_space_correction() {
    let positions = [[0.0, 0.0, 0.0], [1.0, 0.0, 0.0]];
    let edges = [(1, 0)];
    let (problem, _target) = problem(&edges, &positions, vec![1], vec![0], vec![0.0; 3]);
    let displaced = Array2::from_shape_vec((1, 3), vec![1.0, 0.2, 0.0]).unwrap();
    let result = retract_member_lengths(
        &problem,
        &displaced,
        &[1.0],
        &LengthRetractionOptions {
            solver: RowSpaceSolver::Lsqr,
            tolerance: 1e-12,
            ..LengthRetractionOptions::default()
        },
    )
    .unwrap();

    assert!(result.converged);
    let radius = (result.positions[[0, 0]].powi(2) + result.positions[[0, 1]].powi(2)).sqrt();
    assert!((radius - 1.0).abs() < 1e-10);
    assert!(result.positions[[0, 1]] > 0.15);
}

#[test]
fn geometric_stiffness_classifies_stable_finite_and_unstable_modes() {
    let positions = [[0.0, 0.0, 0.0], [2.0, 0.0, 0.0]];
    let edges = [(1, 0)];
    let (problem, target) = problem(&edges, &positions, vec![1], vec![0], vec![0.0; 3]);
    let system = EquilibriumSystem::force(&problem, &target, false, false, false).unwrap();
    // Transverse free-node displacement is an infinitesimal mechanism.
    let mechanism = Array2::from_shape_vec((3, 1), vec![0.0, 1.0, 0.0]).unwrap();

    for (force, expected) in [
        (4.0, MechanismClass::PrestressStable),
        (0.0, MechanismClass::FiniteCandidate),
        (-4.0, MechanismClass::PrestressUnstable),
    ] {
        let result =
            classify_prestress_stability(&problem, &system, &[force], &mechanism, 1e-10).unwrap();
        assert_eq!(result.classes, vec![expected]);
        assert!((result.restricted_stiffness[[0, 0]] - force / 2.0).abs() < 1e-12);
    }
}

#[test]
fn geometric_stiffness_diagonalizes_coupled_mechanism_basis() {
    let positions = [[0.0, 0.0, 0.0], [2.0, 0.0, 0.0]];
    let edges = [(1, 0)];
    let (problem, target) = problem(&edges, &positions, vec![1], vec![0], vec![0.0; 3]);
    let system = EquilibriumSystem::force(&problem, &target, false, false, false).unwrap();
    let mechanisms = Array2::from_shape_vec((3, 2), vec![0.0, 0.0, 1.0, 1.0, 0.0, 1.0]).unwrap();
    let result =
        classify_prestress_stability(&problem, &system, &[2.0], &mechanisms, 1e-12).unwrap();

    assert_eq!(result.classes.len(), 2);
    assert!(result.eigenvalues[0] >= -1e-12);
    let root_five = 5.0_f64.sqrt();
    assert!((result.eigenvalues[0] - (3.0 - root_five) / 2.0).abs() < 1e-10);
    assert!((result.eigenvalues[1] - (3.0 + root_five) / 2.0).abs() < 1e-10);
}

fn tiny_problem() -> Problem {
    Problem::new(
        &[(0, 1)],
        2,
        vec![0],
        vec![1],
        Array2::from_shape_vec((1, 3), vec![0.0, 0.0, -1.0]).unwrap(),
        Array2::from_shape_vec((1, 3), vec![0.0, 0.0, 0.0]).unwrap(),
    )
}

#[test]
fn sparse_qr_rigidity_report_size_query_and_fill_round_trip() {
    let problem = tiny_problem();
    let target = Array2::from_shape_vec((1, 3), vec![1.0, 0.0, 0.0]).unwrap();
    let report = theseus::handle::rigidity_report(
        &Native,
        &Kernels,
        &problem.built(),
        &matrix(&target),
        2,
        0,
        8,
    )
    .unwrap();
    let sizes = theseus::handle::report_sizes(&report);
    assert_eq!(
        (
            sizes.rank,
            sizes.self_stress_count,
            sizes.mechanism_raw_count,
            sizes.mechanism_count
        ),
        (1, 0, 2, 0)
    );
    assert_eq!((sizes.particular_len, sizes.residual_len), (1, 3));
    let mut pending = Some(report);
    let report = theseus::handle::take_report(&mut pending).unwrap();
    for (buffer, length) in [
        (Buffer::ParticularForce, sizes.particular_len),
        (Buffer::Residual, sizes.residual_len),
        (Buffer::SelfStress, sizes.self_stress_len),
        (Buffer::Mechanism, sizes.mechanism_len),
        (Buffer::RigidBody, sizes.rigid_len),
    ] {
        let values = theseus::handle::fill_part(&report, buffer, length).unwrap();
        assert_eq!(values.len(), length);
    }
    assert!(float(report.residual_ratio).is_finite());
}

#[test]
fn retraction_and_prestress_exports_round_trip() {
    let problem = tiny_problem();
    let initial = Array2::from_shape_vec((1, 3), vec![1.0, 0.2, 0.0]).unwrap();
    let options = theseus::retraction::LengthRetractionOptions {
        max_iterations: 30,
        tolerance: double(1e-12),
        ..theseus::retraction::LengthRetractionOptions::default()
    };
    let result = theseus::retraction::retract_member_lengths(
        &Native,
        &Kernels,
        &problem.built(),
        &matrix(&initial),
        &reals(&[1.0]),
        &options,
    )
    .unwrap();
    assert!(result.converged);
    assert!(result.iterations > 0);
    assert!(float(result.max_length_error) < 1e-10);
    let retracted = floats(&result.positions.to_flat());
    assert!((retracted[0].hypot(retracted[1]) - 1.0).abs() < 1e-10);

    let target = Array2::from_shape_vec((1, 3), vec![1.0, 0.0, 0.0]).unwrap();
    let mechanism = Array2::from_shape_vec((3, 1), vec![0.0, 1.0, 0.0]).unwrap();
    let modes = theseus::handle::classify_modes(
        &Native,
        &problem.built(),
        &matrix(&target),
        &reals(&[2.0]),
        &matrix(&mechanism),
        double(1e-12),
    )
    .unwrap();
    let rotated = floats(&modes.rotated);
    assert_eq!(modes.classes[0], 1);
    assert!((float(modes.eigenvalues[0]) - 2.0).abs() < 1e-10);
    assert!((rotated[1].abs() - 1.0).abs() < 1e-10);
}

/// Kernels that give nothing, or nothing but factors.
struct Refusing(bool);

fn refusal<T>() -> Result<T, TheseusError> {
    Err(linalg("refused".to_string()))
}

impl Backend for Refusing {
    type Factor = ();
    type Symbolic = ();

    fn factor(
        &self,
        _: &theseus::sparse::SparseColMatOwned,
        _: FactorizationStrategy,
    ) -> Result<(), TheseusError> {
        if self.0 {
            Ok(())
        } else {
            refusal()
        }
    }

    fn refactor(
        &self,
        _: (),
        _: &theseus::sparse::SparseColMatOwned,
    ) -> Result<(), TheseusError> {
        refusal()
    }

    fn solve(&self, _: &(), _: &Vec<Real>) -> Result<Vec<Real>, TheseusError> {
        refusal()
    }

    fn solve_columns(&self, _: &(), _: &Matrix) -> Result<Matrix, TheseusError> {
        refusal()
    }

    fn analyze_qr(
        &self,
        _: &theseus::sparse::SparseColMatOwned,
        _: bool,
    ) -> Result<(), TheseusError> {
        refusal()
    }

    fn factor_qr(
        &self,
        _: &(),
        _: &theseus::sparse::SparseColMatOwned,
    ) -> Result<QrFactor, TheseusError> {
        refusal()
    }

    fn solve_qr(&self, _: &(), _: &QrFactor, _: &Matrix) -> Result<Matrix, TheseusError> {
        refusal()
    }

    fn svd(&self, _: &Matrix, _: bool) -> Result<Svd, TheseusError> {
        refusal()
    }

    fn quadratic_program(
        &self,
        _: &QuadraticProgram,
        _: ConicSettings,
    ) -> Result<ConicAttempt, TheseusError> {
        refusal()
    }
}

#[test]
fn refused_kernels_are_reported() {
    let (problem, target) = one_bar();
    let p = problem.built();
    let t = matrix(&target);
    for method in [1, 2] {
        let report =
            theseus::handle::rigidity_report(&Native, &Refusing(false), &p, &t, method, 0, 4);
        assert!(matches!(plain_complaint(report), Complaint::Worded(_)));
    }
    let singular = theseus::saddle::solve_saddle_pseudoinverse(
        &Native,
        &Refusing(false),
        &SparseColMatOwned::from_coo(1, 1, &[0], &[0], &[1.0]).unwrap().0,
        &reals(&[1.0]),
        double(0.0),
        double(1e-9),
        0,
    );
    assert!(matches!(plain_complaint(singular), Complaint::SingularSaddle(_)));
    let default =
        theseus::inverse::solve_inverse_fdm_default(&Native, &Refusing(false), &p, &t, false, false, false);
    assert!(matches!(plain_complaint(default), Complaint::Worded(_)));
}

fn one_bar() -> (Problem, Array2<f64>) {
    let problem = tiny_problem();
    let target = Array2::from_shape_vec((1, 3), vec![2.0, 0.0, 0.0]).unwrap();
    (problem, target)
}

fn complaint_of<T>(result: Result<T, Failure>) -> Complaint {
    match result {
        Ok(_) => panic!("expected an error"),
        Err(Failure(
            TheseusError::Linalg(c) | TheseusError::Solver(c) | TheseusError::Shape(c),
        )) => c,
        Err(Failure(TheseusError::Cancelled)) => panic!("expected a complaint"),
    }
}

fn plain_complaint<T>(result: Result<T, TheseusError>) -> Complaint {
    complaint_of(result.map_err(Failure))
}

#[test]
fn sparse_matrices_are_assembled_by_columns_and_summed() {
    let m = SparseColMatOwned::from_coo(
        2,
        3,
        &[1, 0, 1, 1],
        &[0, 2, 0, 2],
        &[1.0, 2.0, 0.5, 4.0],
    )
    .unwrap();
    assert_eq!(m.0.col_ptrs, [0, 1, 1, 3]);
    assert_eq!(m.0.row_indices, [1, 0, 1]);
    assert_eq!(floats(&m.0.values), [1.5, 2.0, 4.0]);
    assert_eq!(m.0.nnz(), 3);
    assert_eq!(m.matvec(&[1.0, 10.0, 100.0]), [200.0, 401.5]);
    let t = m.transpose();
    assert_eq!(t.0.col_ptrs, [0, 1, 3]);
    assert_eq!(t.0.row_indices, [2, 0, 2]);
    assert_eq!(floats(&t.0.values), [2.0, 1.5, 4.0]);
    assert_eq!(t.transpose().0.values, m.0.values);
    let square =
        theseus::sparse::SparseColMatOwned::sparse_times_sparse(&Native, &m.0, &t.0).unwrap();
    assert_eq!(floats(&square.values), [4.0, 8.0, 8.0, 18.25]);
    let loaded = square.add_diagonal(&Native, double(1.0)).unwrap();
    assert_eq!(floats(&loaded.values), [5.0, 8.0, 8.0, 19.25]);
    let scaled = theseus::sparse::row_scaled_copy(&Native, &m.0, &reals(&[3.0, 2.0]));
    assert_eq!(floats(&scaled.values), [3.0, 6.0, 8.0]);
    let cut = m.0.extract_columns(&vec![2, 1]).unwrap();
    assert_eq!(cut.col_ptrs, [0, 2, 2]);
    assert_eq!(floats(&cut.values), [2.0, 4.0]);
    assert!(matches!(
        plain_complaint(m.0.extract_columns(&vec![2, 7])),
        Complaint::NodeRange { node: 7 }
    ));
    assert!(matches!(
        complaint_of(SparseColMatOwned::from_coo(1, 1, &[1], &[0], &[1.0]).map(|_| ())),
        Complaint::Triplets
    ));
    assert!(matches!(
        plain_complaint(theseus::sparse::SparseColMatOwned::sparse_times_sparse(
            &Native, &m.0, &m.0
        )),
        Complaint::Triplets
    ));
}

#[test]
fn equilibrium_rows_hold_directions_and_loads() {
    let (problem, target) = one_bar();
    let force = EquilibriumSystem::force(&problem, &target, false, false, false).unwrap();
    assert_eq!((force.n_eq, force.n_edges, force.n_free), (3, 1, 1));
    assert_eq!(force.lengths, [2.0]);
    assert_eq!(force.p, [0.0, 0.0, -1.0]);
    assert_eq!(force.a.matvec(&[1.0]), [1.0, 0.0, 0.0]);
    let density = EquilibriumSystem::assemble(
        &problem,
        &target,
        EquilibriumUnknown::ForceDensity,
        false,
        false,
        false,
    )
    .unwrap();
    assert_eq!(density.a.matvec(&[1.0]), [2.0, 0.0, 0.0]);
    let zero = Array2::from_shape_vec((1, 3), vec![0.0; 3]).unwrap();
    assert!(matches!(
        complaint_of(EquilibriumSystem::force(&problem, &zero, false, false, false)),
        Complaint::NearZeroLength { edge: 0, .. }
    ));
    let wide = Array2::from_shape_vec((2, 3), vec![0.0; 6]).unwrap();
    assert!(matches!(
        complaint_of(EquilibriumSystem::force(&problem, &wide, false, false, false)),
        Complaint::TargetShape { rows: 2, cols: 3, expected: 1 }
    ));
}

#[test]
fn particulars_of_every_kind_agree_on_a_determinate_network() {
    let (problem, _) = triangle_problem();
    let expected = [2.0, 3.0];
    let (target, _) = forward_target(&problem, &expected);
    let p = problem.built();
    let t = matrix(&target);
    let near = |q: Result<Vec<Real>, TheseusError>| {
        let q = floats(&q.unwrap());
        for (a, b) in q.iter().zip(expected) {
            assert!((a - b).abs() < 1e-5, "{q:?}");
        }
    };
    use_each_particular(&p, &t, double(1e-12), &near);
    assert!(matches!(
        plain_complaint(theseus::pseudoinverse::solve_pseudoinverse_augmented(
            &Native,
            &Kernels,
            &p,
            &t,
            double(-1.0),
            false,
            false,
            false,
            true
        )),
        Complaint::NegativeRegularization
    ));
    assert!(matches!(
        plain_complaint(theseus::pseudoinverse::solve_pseudoinverse_l1_augmented(
            &Native,
            &Kernels,
            &p,
            &t,
            double(-1.0),
            3,
            false,
            false,
            false,
            true
        )),
        Complaint::NegativeRegularization
    ));
}

fn use_each_particular(
    p: &theseus::types::Problem,
    t: &Matrix,
    w: Real,
    near: &dyn Fn(Result<Vec<Real>, TheseusError>),
) {
    for solve_for_q in [true, false] {
        near(theseus::pseudoinverse::solve_pseudoinverse(
            &Native,
            &Kernels,
            p,
            t,
            w,
            false,
            false,
            false,
            solve_for_q,
        ));
        near(theseus::pseudoinverse::solve_pseudoinverse_augmented(
            &Native,
            &Kernels,
            p,
            t,
            w,
            false,
            false,
            false,
            solve_for_q,
        ));
        near(theseus::pseudoinverse::solve_pseudoinverse_qr(
            &Native,
            &Kernels,
            p,
            t,
            false,
            false,
            false,
            solve_for_q,
        ));
        near(theseus::pseudoinverse::solve_pseudoinverse_l1(
            &Native,
            &Kernels,
            p,
            t,
            w,
            10,
            false,
            false,
            false,
            solve_for_q,
        ));
        near(theseus::pseudoinverse::solve_pseudoinverse_l1_augmented(
            &Native,
            &Kernels,
            p,
            t,
            w,
            10,
            false,
            false,
            false,
            solve_for_q,
        ));
    }
}

#[test]
fn lsqr_meets_nothing_with_nothing_and_solves_small_systems() {
    let a = SparseColMatOwned::from_coo(2, 2, &[0, 1], &[0, 1], &[2.0, 4.0]).unwrap();
    let none = theseus::lsqr::solve_lsqr(&Native, &a.0, &reals(&[0.0, 0.0]), double(1e-12), 0)
        .unwrap();
    assert_eq!(floats(&none.solution), [0.0, 0.0]);
    assert_eq!(none.iterations, 0);
    assert!(none.converged);
    let x = apply_pseudoinverse(&a, &[2.0, 8.0], 1e-14, 0).unwrap();
    assert!((x[0] - 1.0).abs() < 1e-12 && (x[1] - 2.0).abs() < 1e-12);
    let y = theseus::lsqr::apply_transpose_pseudoinverse(
        &Native,
        &a.0,
        &reals(&[2.0, 8.0]),
        double(1e-14),
        0,
    )
    .unwrap();
    assert!((float(y[1]) - 2.0).abs() < 1e-12);
    assert!(matches!(
        complaint_of(apply_pseudoinverse(&a, &[1.0], 1e-9, 0)),
        Complaint::PseudoinverseRhs
    ));
    assert!(matches!(
        plain_complaint(theseus::lsqr::apply_transpose_pseudoinverse(
            &Native,
            &a.0,
            &reals(&[1.0]),
            double(1e-9),
            0
        )),
        Complaint::TransposePseudoinverseRhs
    ));
    assert!(matches!(
        complaint_of(apply_pseudoinverse(&a, &[f64::NAN, 1.0], 1e-9, 0)),
        Complaint::LsqrNotFinite
    ));
    assert_eq!(theseus::lsqr::iteration_limit(3, 2, 0), 20);
    assert_eq!(theseus::lsqr::iteration_limit(0, 0, 0), 4);
    assert_eq!(theseus::lsqr::iteration_limit(3, 2, 7), 7);
}

#[test]
fn saddle_systems_mirror_their_matrix() {
    let a = SparseColMatOwned::from_coo(2, 1, &[0, 1], &[0, 0], &[3.0, 4.0]).unwrap();
    let (k, rhs) = theseus::saddle::build_augmented_system(
        &Native,
        &a.0,
        &reals(&[5.0, 6.0]),
        double(0.5),
    )
    .unwrap();
    assert_eq!(densify(&k), [[1.0, 0.0, 3.0], [0.0, 1.0, 4.0], [3.0, 4.0, -0.5]]);
    assert_eq!(floats(&rhs), [5.0, 6.0, 0.0]);
    let x = theseus::saddle::solve_saddle_pseudoinverse(
        &Native,
        &Kernels,
        &a.0,
        &reals(&[3.0, 4.0]),
        double(0.0),
        double(1e-9),
        0,
    )
    .unwrap();
    assert!((float(x[0]) - 1.0).abs() < 1e-12);
    assert!(matches!(
        plain_complaint(theseus::saddle::solve_saddle_pseudoinverse(
            &Native,
            &Kernels,
            &a.0,
            &reals(&[3.0]),
            double(0.0),
            double(1e-9),
            0
        )),
        Complaint::SaddleRhs
    ));
    assert!(matches!(
        plain_complaint(theseus::saddle::solve_saddle_pseudoinverse(
            &Native,
            &Kernels,
            &a.0,
            &reals(&[3.0, 4.0]),
            double(-1.0),
            double(1e-9),
            0
        )),
        Complaint::NegativeRegularization
    ));
    let unknowns =
        theseus::saddle::saddle_unknowns(Ok(reals(&[9.0, 9.0, 7.0])), 2, 1, double(0.0)).unwrap();
    assert_eq!(floats(&unknowns), [7.0]);
    assert!(matches!(
        plain_complaint(theseus::saddle::saddle_unknowns(
            Ok(reals(&[9.0, 9.0, f64::NAN])),
            2,
            1,
            double(1.0)
        )),
        Complaint::SaddleNotFinite
    ));
    assert!(matches!(
        plain_complaint(theseus::saddle::saddle_unknowns(Ok(vec![]), 2, 1, double(0.0))),
        Complaint::SingularSaddle(_)
    ));
    assert!(matches!(
        plain_complaint(theseus::saddle::saddle_unknowns(Ok(vec![]), 2, 1, double(1.0))),
        Complaint::BackendSize { found: 0, expected: 3 }
    ));
}

#[test]
fn weighted_saddles_couple_weight_and_matrix() {
    let m = SparseColMatOwned::from_coo(1, 1, &[0], &[0], &[2.0]).unwrap();
    let s = SparseColMatOwned::from_coo(1, 1, &[0], &[0], &[5.0]).unwrap();
    let (k, rhs) = theseus::direct::build_weighted_saddle(
        &Native,
        &m.0,
        &s.0,
        &reals(&[3.0]),
        double(0.25),
    )
    .unwrap();
    assert_eq!(densify(&k), [[1.0, 0.0, 5.0], [0.0, 0.25, -2.0], [5.0, -2.0, 0.0]]);
    assert_eq!(floats(&rhs), [0.0, 0.0, -3.0]);
    assert!(matches!(
        plain_complaint(theseus::direct::middle_part(Ok(vec![]), 1, 1)),
        Complaint::BackendSize { found: 0, expected: 2 }
    ));
    let middle = theseus::direct::middle_part(Ok(reals(&[1.0, 2.0, 3.0])), 1, 1).unwrap();
    assert_eq!(floats(&middle), [2.0]);
}

#[test]
fn normal_equations_are_regularized_on_the_diagonal() {
    let m = SparseColMatOwned::from_coo(2, 1, &[0, 1], &[0, 0], &[3.0, 4.0]).unwrap();
    let (g, h) =
        theseus::direct::gram_system(&Native, &m.0, &reals(&[1.0, 2.0]), double(2.0)).unwrap();
    assert_eq!(floats(&g.values), [27.0]);
    assert_eq!(floats(&h), [11.0]);
    let mut held = None;
    let mut refused = |w: f64| {
        plain_complaint(theseus::direct::solve_gram_on(
            &Native,
            &Refusing(false),
            &m.0,
            &reals(&[1.0, 2.0]),
            double(w),
            &mut held,
        ))
    };
    assert!(matches!(refused(0.0), Complaint::SingularGram));
    assert!(matches!(refused(1.0), Complaint::Worded(_)));
    assert!(held.is_none());
    let mut cache = None;
    let x = theseus::direct::solve_gram_on(
        &Native,
        &Kernels,
        &m.0,
        &reals(&[3.0, 4.0]),
        double(0.0),
        &mut cache,
    )
    .unwrap();
    assert!((float(x[0]) - 1.0).abs() < 1e-12);
    assert!(cache.is_some());
}

#[test]
fn ranks_are_read_off_the_stored_factor() {
    let f = |values: &[f64]| QrFactor { indices: vec![0, 1, 3, 0, 0, 1], values: reals(values) };
    assert!(theseus::qr::check_rank(&Native, &f(&[2.0, 1.0, 3.0]), 2, 2).is_ok());
    assert!(matches!(
        plain_complaint(theseus::qr::check_rank(&Native, &f(&[2.0, 1.0, 0.0]), 2, 2)),
        Complaint::QrRank { usable: 1, columns: 2, .. }
    ));
    assert!(matches!(
        plain_complaint(theseus::qr::check_rank(&Native, &f(&[]), 2, 2)),
        Complaint::QrStorage
    ));
    let head = matrix(&Array2::from_shape_vec((3, 1), vec![4.0, 5.0, 6.0]).unwrap());
    assert_eq!(floats(&theseus::qr::head_part(Ok(head), 2).unwrap()), [4.0, 5.0]);
    let short = matrix(&Array2::from_shape_vec((1, 1), vec![4.0]).unwrap());
    assert!(matches!(
        plain_complaint(theseus::qr::head_part(Ok(short), 2)),
        Complaint::BackendSize { found: 1, expected: 2 }
    ));
}

fn small_program() -> (SparseColMatOwned, theseus::bounds::BoxBounds, QuadraticProgram) {
    let m = SparseColMatOwned::from_coo(1, 1, &[0], &[0], &[2.0]).unwrap();
    let bounds = theseus::bounds::BoxBounds {
        lower: reals(&[0.5]),
        upper: reals(&[f64::INFINITY]),
    };
    let program = theseus::conic::build_program::<Native, Kernels>(
        &Native,
        &m.0,
        &reals(&[6.0]),
        double(0.25),
        &bounds,
        None,
    )
    .unwrap();
    (m, bounds, program)
}

#[test]
fn programs_state_residuals_and_finite_faces() {
    let (_, _, program) = small_program();
    assert_eq!(densify(&program.p), [[1.0, 0.0], [0.0, 0.25]]);
    assert_eq!(densify(&program.a), [[1.0, -2.0], [0.0, -1.0]]);
    assert_eq!(floats(&program.b), [-6.0, -0.5]);
    assert_eq!((program.cones.zero, program.cones.nonnegative), (1, 1));
    let settings = theseus::conic::conic_settings(0, double(1e-3), false);
    assert_eq!(settings.max_iter, 1);
    assert!(settings.presolve);
    assert_eq!(float(settings.tolerance), 1e-3);
    let wider = theseus::conic::conic_settings(usize::MAX, double(0.0), true);
    assert_eq!(wider.max_iter, u32::MAX);
    assert!(!wider.presolve);
    assert!(float(wider.min_scaling) <= float(settings.min_scaling));
    assert!(float(wider.max_scaling) >= float(settings.max_scaling));
}

#[test]
fn attempts_are_accepted_if_they_keep_the_program() {
    let (m, bounds, program) = small_program();
    let attempt = |status: SolverStatus, x: &[f64]| ConicAttempt {
        status,
        x: reals(x),
        iterations: 3,
        primal_residual: double(0.0),
        dual_residual: double(0.0),
        solve_time: double(0.0),
    };
    let accept = |a: ConicAttempt, step: bool| {
        theseus::conic::accept_attempt::<Native, Kernels>(
            &Native,
            &program,
            &m.0,
            &reals(&[6.0]),
            &bounds,
            None,
            double(1e-8),
            step,
            &a,
        )
    };
    let found = accept(attempt(SolverStatus::Solved, &[-4.0, 1.0]), false).unwrap();
    assert_eq!(floats(&found), [1.0]);
    assert!(accept(attempt(SolverStatus::AlmostSolved, &[-4.0, 1.0]), false).is_ok());
    assert!(matches!(
        plain_complaint(accept(attempt(SolverStatus::Solved, &[-5.0, 1.0]), false)),
        Complaint::ConicInaccurate { .. }
    ));
    assert!(matches!(
        plain_complaint(accept(attempt(SolverStatus::Solved, &[-6.0, 0.0]), false)),
        Complaint::ConicInaccurate { .. }
    ));
    assert!(matches!(
        plain_complaint(accept(attempt(SolverStatus::PrimalInfeasible, &[]), false)),
        Complaint::ConicFailed { numerical: false, .. }
    ));
    let numerical = plain_complaint(accept(attempt(SolverStatus::PrimalInfeasible, &[]), true));
    assert!(matches!(numerical, Complaint::ConicFailed { numerical: true, .. }));
    assert!(numerical.words().contains("numerical failure"));
    assert!(matches!(
        plain_complaint(accept(attempt(SolverStatus::Solved, &[1.0]), false)),
        Complaint::BackendSize { found: 1, expected: 2 }
    ));
}

#[test]
fn residuals_weigh_their_rows_inversely() {
    let (roots, objective, largest) =
        theseus::irls::irls_weights(&Native, &reals(&[1.0, -4.0]));
    assert_eq!(float(objective), 5.0);
    assert_eq!(float(largest), 1.0);
    assert_eq!(floats(&roots), [1.0, 0.5]);
    assert_eq!(
        float(theseus::irls::rescaled_regularization(&Native, double(6.0), double(2.0))),
        3.0
    );
    assert!(!theseus::irls::has_settled(&Native, double(f64::MAX), double(1.0)));
    assert!(theseus::irls::has_settled(&Native, double(1.0), double(1.0)));
    assert!(!theseus::irls::has_settled(&Native, double(1.0), double(2.0)));
    let loads = theseus::pseudoinverse::weigh_loads(
        &Native,
        &reals(&[1.0, -4.0]),
        &reals(&[3.0, 8.0]),
        double(1.0),
    );
    assert_eq!(floats(&loads), [3.0, 2.0]);
    let q = theseus::geometry::forces_to_q(&Native, &reals(&[6.0]), &reals(&[2.0]));
    assert_eq!(floats(&q), [3.0]);
}

#[test]
fn inverse_options_are_validated() {
    let (problem, target) = one_bar();
    let opts = || {
        inverse_opts(
            1e-6,
            true,
            ParticularMethod::Augmented,
            LinearAlgebra::Direct,
            true,
        )
    };
    let solve = |o: InverseFdmOptions| complaint_of(solve_inverse_fdm(&problem, &target, o));
    let mut o = opts();
    o.regularization = -1.0;
    assert!(matches!(solve(o), Complaint::NegativeRegularization));
    let mut o = opts();
    o.cwls_damping = f64::NAN;
    assert!(matches!(solve(o), Complaint::CwlsDamping));
    let mut o = opts();
    o.signs = vec![1, 1];
    assert!(matches!(solve(o), Complaint::SignList { found: 2, edges: 1 }));
    let mut o = opts();
    o.lower = vec![2.0];
    o.upper = vec![1.0];
    assert!(matches!(solve(o), Complaint::EmptyInterval { edge: 0, .. }));
    let mut o = opts();
    o.metric = InverseMetric::Geometry;
    o.q_ref = vec![1.0, 2.0];
    assert!(matches!(solve(o), Complaint::ReferenceCount { found: 2, expected: 1 }));
    let mut o = opts();
    o.metric = InverseMetric::Geometry;
    o.use_l2 = false;
    assert!(matches!(solve(o), Complaint::GeometricL1));
    let mut weighed = problem.built();
    weighed.self_weight = Some(theseus::loads::SelfWeightParams::Sizing {
        rho: double(1.0),
        sigma: double(1.0),
        gravity: [double(0.0), double(0.0), double(-1.0)],
        max_iters: 1,
        tolerance: double(1.0),
        relaxation: double(1.0),
    });
    let plain = theseus::options::InverseFdmOptions::direct_unconstrained(
        double(0.0),
        true,
        1,
        ParticularMethod::Gram,
        false,
        false,
        false,
        true,
    );
    assert!(matches!(
        plain_complaint(theseus::geometry::validate_geometric_options(&weighed, &plain)),
        Complaint::GeometricLoads
    ));
    let unusable = theseus::bounds::q_box_to_force_box(
        &Native,
        &theseus::bounds::BoxBounds { lower: reals(&[0.0]), upper: reals(&[1.0]) },
        &reals(&[0.0]),
    );
    assert!(matches!(
        plain_complaint(unusable),
        Complaint::UnusableLength { edge: 0, .. }
    ));
    let turned = theseus::bounds::q_box_to_force_box(
        &Native,
        &theseus::bounds::BoxBounds { lower: reals(&[0.5]), upper: reals(&[1.5]) },
        &reals(&[2.0]),
    )
    .unwrap();
    assert_eq!((floats(&turned.lower), floats(&turned.upper)), (vec![1.0], vec![3.0]));
    let seen = theseus::bounds::shift_box(&Native, &turned, &reals(&[2.0]));
    assert_eq!((floats(&seen.lower), floats(&seen.upper)), (vec![-1.0], vec![1.0]));
    let seen = theseus::bounds::ordered(seen).unwrap();
    assert_eq!((floats(&seen.lower), floats(&seen.upper)), (vec![-1.0], vec![1.0]));
    let crossed = theseus::bounds::BoxBounds {
        lower: reals(&[0.0, 2.0]),
        upper: reals(&[0.0, 1.0]),
    };
    assert!(matches!(
        plain_complaint(theseus::bounds::ordered(crossed)),
        Complaint::EmptyInterval { edge: 1, .. }
    ));
}

#[test]
fn bounds_that_are_no_numbers_matter_only_in_the_box() {
    let (problem, _) = triangle_problem();
    let (target, _) = forward_target(&problem, &[2.0, 3.0]);
    let opts = || {
        let mut o = inverse_opts(
            1e-6,
            true,
            ParticularMethod::Augmented,
            LinearAlgebra::Direct,
            true,
        );
        o.lower = vec![f64::NAN];
        o
    };
    let usable = |o: InverseFdmOptions, target: &Array2<f64>| {
        theseus::inverse::bounds_are_usable(
            &Native,
            &problem.built(),
            &matrix(target),
            &o.built(),
        )
    };
    assert!(!usable(opts(), &target));
    let mut o = opts();
    o.solve_for_q = false;
    assert!(!usable(o, &target));
    let mut o = opts();
    o.lower = vec![0.0];
    assert!(usable(o, &target));
    let refused = |change: &dyn Fn(&mut InverseFdmOptions), target: &Array2<f64>| {
        let mut o = opts();
        change(&mut o);
        let mut again = opts();
        change(&mut again);
        assert!(usable(o, target));
        complaint_of(solve_inverse_fdm(&problem, target, again))
    };
    assert!(matches!(
        refused(&|o| o.regularization = -1.0, &target),
        Complaint::NegativeRegularization
    ));
    assert!(matches!(
        refused(&|o| o.cwls_damping = f64::INFINITY, &target),
        Complaint::CwlsDamping
    ));
    assert!(matches!(
        refused(&|o| o.cwls_damping = -1.0, &target),
        Complaint::CwlsDamping
    ));
    let wide = Array2::from_shape_vec((2, 3), vec![0.0; 6]).unwrap();
    assert!(matches!(refused(&|_| {}, &wide), Complaint::TargetShape { rows: 2, .. }));
    assert!(matches!(
        refused(&|o| o.signs = vec![1, 1, 1], &target),
        Complaint::SignList { found: 3, edges: 2 }
    ));
    let emptied = |o: &mut InverseFdmOptions| {
        o.lower = vec![2.0, f64::NAN];
        o.upper = vec![1.0];
    };
    assert!(matches!(
        refused(&emptied, &target),
        Complaint::EmptyInterval { edge: 0, .. }
    ));
}

#[test]
fn caches_are_emptied_by_a_failed_solve() {
    let g = SparseColMatOwned::from_coo(1, 1, &[0], &[0], &[2.0]).unwrap();
    for before in [None, Some(())] {
        let mut cache = before;
        let solved = theseus::direct::ldl_solve_cached(
            &Refusing(true),
            &g.0,
            &reals(&[1.0]),
            double(1.0),
            &mut cache,
        );
        assert!(solved.is_err());
        assert!(cache.is_none());
    }
}

#[test]
fn bounded_solves_do_not_go_by_the_particular_method() {
    let (problem, _) = triangle_problem();
    let (target, _) = forward_target(&problem, &[2.0, 3.0]);
    for linear_algebra in [LinearAlgebra::Direct, LinearAlgebra::Iterative] {
        let solve = |method: ParticularMethod| {
            let mut o = inverse_opts(1e-8, true, method, linear_algebra, true);
            o.lower = vec![0.0];
            solve_inverse_fdm(&problem, &target, o).unwrap().q
        };
        let expected = solve(ParticularMethod::Gram);
        assert_eq!(solve(ParticularMethod::Augmented), expected);
        assert_eq!(solve(ParticularMethod::SparseQr), expected);
        assert_eq!(solve(ParticularMethod::Clarabel), expected);
    }
}

#[test]
fn no_rounds_of_reweighting_leave_the_least_squares() {
    let (problem, _) = triangle_problem();
    let (target, _) = forward_target(&problem, &[2.0, 3.0]);
    let target = jitter_z(&target);
    let p = problem.built();
    let t = matrix(&target);
    for solve_for_q in [true, false] {
        let least = theseus::pseudoinverse::solve_pseudoinverse(
            &Native,
            &Kernels,
            &p,
            &t,
            double(0.5),
            false,
            false,
            false,
            solve_for_q,
        );
        let none = theseus::pseudoinverse::solve_pseudoinverse_l1(
            &Native,
            &Kernels,
            &p,
            &t,
            double(0.5),
            0,
            false,
            false,
            false,
            solve_for_q,
        );
        assert_eq!(floats(&none.unwrap()), floats(&least.unwrap()));
        let least = theseus::pseudoinverse::solve_pseudoinverse_augmented(
            &Native,
            &Kernels,
            &p,
            &t,
            double(0.5),
            false,
            false,
            false,
            solve_for_q,
        );
        let none = theseus::pseudoinverse::solve_pseudoinverse_l1_augmented(
            &Native,
            &Kernels,
            &p,
            &t,
            double(0.5),
            0,
            false,
            false,
            false,
            solve_for_q,
        );
        assert_eq!(floats(&none.unwrap()), floats(&least.unwrap()));
    }
}

#[test]
fn reaction_rows_follow_the_free_rows() {
    let (problem, _) = triangle_problem();
    let (target, _) = forward_target(&problem, &[2.0, 3.0]);
    let plain = EquilibriumSystem::force(&problem, &target, false, false, false).unwrap();
    let whole = EquilibriumSystem::force(&problem, &target, true, false, true).unwrap();
    let n_fixed = problem.built().topology.fixed_node_indices.len();
    assert_eq!(plain.n_eq, 3 * plain.n_free);
    assert_eq!(whole.n_eq, plain.n_eq + 2 * n_fixed);
    assert_eq!(whole.lengths, plain.lengths);
    assert_eq!(whole.p[..plain.n_eq], plain.p[..]);
    assert!(whole.p[plain.n_eq..].iter().all(|v| *v == 0.0));
    let q = [2.0, 3.0];
    let top = plain.a.matvec(&q);
    let rows = whole.a.matvec(&q);
    assert_eq!(rows[..plain.n_eq], top[..]);
    for axis in 0..2 {
        let free: f64 = top[2 * axis * plain.n_free..(2 * axis + 1) * plain.n_free].iter().sum();
        let from = plain.n_eq + axis * n_fixed;
        let fixed: f64 = rows[from..from + n_fixed].iter().sum();
        assert!((free + fixed).abs() < 1e-12);
    }
}

#[test]
fn geometric_weights_undo_the_laplacian() {
    let problem = tiny_problem().built();
    let w = theseus::weight::MetricWeight::build(&Native, &Kernels, &problem, &reals(&[4.0]), 4)
        .unwrap();
    assert_eq!(floats(&w.d.values), [4.0]);
    assert_eq!(
        densify(&w.s),
        [
            [4.0, 0.0, 0.0, 0.0],
            [0.0, 4.0, 0.0, 0.0],
            [0.0, 0.0, 4.0, 0.0],
            [0.0, 0.0, 0.0, 1.0]
        ]
    );
    let y = w.apply_inverse(&Native, &Kernels, &reals(&[8.0, 4.0, 2.0, 5.0])).unwrap();
    assert_eq!(floats(&y), [2.0, 1.0, 0.5, 5.0]);
    assert!(matches!(
        plain_complaint(w.apply_inverse(&Native, &Kernels, &reals(&[1.0]))),
        Complaint::WeightRows { expected: 4, found: 1 }
    ));
    let wrong = matrix(&Array2::from_shape_vec((1, 3), vec![9.0, 1.0, 0.5]).unwrap());
    assert!(matches!(
        plain_complaint(w.accept_inverse(&Native, &reals(&[8.0, 4.0, 2.0, 5.0]), &wrong)),
        Complaint::InaccurateInverse { axis: 0, .. }
    ));
    for (q, strategy) in [
        (1.0, FactorizationStrategy::Cholesky),
        (-1.0, FactorizationStrategy::LDL),
    ] {
        let refused = theseus::weight::MetricWeight::build(
            &Native,
            &Refusing(false),
            &problem,
            &reals(&[q]),
            3,
        );
        match plain_complaint(refused.map(|_| ())) {
            Complaint::LaplacianFactorization { strategy: used } => assert_eq!(used, strategy),
            other => panic!("{other:?}"),
        }
    }
    assert_eq!(
        float(theseus::weight::l2_norm_prefix(&Native, &reals(&[3.0, 4.0, 9.0]), 2)),
        5.0
    );
}

#[test]
fn eigenvalues_come_in_ascending_order() {
    let a = matrix(&Array2::from_shape_vec((2, 2), vec![2.0, 1.0, 1.0, 2.0]).unwrap());
    let (values, vectors) =
        theseus::eigen::symmetric_eigen_jacobi(&Native, &a, double(1e-14)).unwrap();
    assert!((float(values[0]) - 1.0).abs() < 1e-12);
    assert!((float(values[1]) - 3.0).abs() < 1e-12);
    let v = grid(&vectors);
    assert!((v[[0, 0]] + v[[1, 0]]).abs() < 1e-12);
    assert!((v[[0, 1]] - v[[1, 1]]).abs() < 1e-12);
    let wide = matrix(&Array2::from_shape_vec((1, 2), vec![2.0, 1.0]).unwrap());
    assert!(matches!(
        plain_complaint(theseus::eigen::symmetric_eigen_jacobi(&Native, &wide, double(1e-14))),
        Complaint::EigenShape
    ));
}

#[test]
fn prestress_inputs_are_checked() {
    let (problem, target) = one_bar();
    let system = EquilibriumSystem::force(&problem, &target, false, false, false).unwrap();
    let mode = Array2::from_shape_vec((3, 1), vec![0.0, 1.0, 0.0]).unwrap();
    let classify = |t: &[f64], m: &Array2<f64>| {
        complaint_of(classify_prestress_stability(&problem, &system, t, m, 1e-9).map(|_| ()))
    };
    assert!(matches!(classify(&[1.0, 2.0], &mode), Complaint::PrestressCount));
    assert!(matches!(classify(&[f64::NAN], &mode), Complaint::PrestressNotFinite));
    let short = Array2::from_shape_vec((2, 1), vec![0.0, 1.0]).unwrap();
    assert!(matches!(
        classify(&[1.0], &short),
        Complaint::MechanismRows { found: 2, expected: 3 }
    ));
    let (other, edges) = triangle_problem();
    assert_eq!(edges.len(), 2);
    assert!(matches!(
        complaint_of(classify_prestress_stability(&other, &system, &[1.0], &mode, 1e-9).map(|_| ())),
        Complaint::PrestressSystem
    ));
    let stable = classify_prestress_stability(&problem, &system, &[3.0], &mode, 1e-9).unwrap();
    let unstable = classify_prestress_stability(&problem, &system, &[-3.0], &mode, 1e-9).unwrap();
    assert_eq!(stable.classes, [MechanismClass::PrestressStable]);
    assert_eq!(unstable.classes, [MechanismClass::PrestressUnstable]);
    assert_eq!(stable.eigenvalues[0], -unstable.eigenvalues[0]);
}

#[test]
fn retraction_inputs_are_checked_and_every_step_improves() {
    let (problem, target) = one_bar();
    let options = LengthRetractionOptions::default();
    let wide = Array2::from_shape_vec((2, 3), vec![0.0; 6]).unwrap();
    assert!(matches!(
        complaint_of(retract_member_lengths(&problem, &wide, &[1.0], &options).map(|_| ())),
        Complaint::RetractionShape { rows: 2, cols: 3, expected: 1 }
    ));
    assert!(matches!(
        complaint_of(retract_member_lengths(&problem, &target, &[], &options).map(|_| ())),
        Complaint::RetractionCount
    ));
    assert!(matches!(
        complaint_of(retract_member_lengths(&problem, &target, &[0.0], &options).map(|_| ())),
        Complaint::RetractionLengths
    ));
    let mut last = f64::INFINITY;
    for max_iterations in 0..5 {
        let result = theseus::retraction::retract_member_lengths(
            &Native,
            &Kernels,
            &problem.built(),
            &matrix(&target),
            &reals(&[1.0]),
            &theseus::retraction::LengthRetractionOptions {
                max_iterations,
                tolerance: double(1e-13),
                ..theseus::retraction::LengthRetractionOptions::default()
            },
        )
        .unwrap();
        let norm = float(result.residual_norm);
        assert!(norm < last || result.converged);
        last = norm;
    }
}

#[test]
fn null_spaces_are_checked() {
    let (problem, target) = one_bar();
    let system = EquilibriumSystem::force(&problem, &target, false, false, false).unwrap();
    let built = system.built();
    let none: Vec<Vec<Real>> = Vec::new();
    let along = vec![reals(&[1.0])];
    let report = |s: usize, stress: &Vec<Vec<Real>>| {
        theseus::nullspace::build_report(
            &Native,
            &built,
            1,
            s,
            2,
            2,
            0,
            stress,
            &none,
            &none,
            double(1e-9),
            0,
        )
    };
    let fine = report(0, &none).unwrap();
    assert_eq!(floats(&fine.residual_r), [0.0, 0.0, 1.0]);
    assert_eq!(float(fine.residual_ratio), 1.0);
    assert!(matches!(plain_complaint(report(1, &none)), Complaint::Calladine));
    assert!(matches!(
        plain_complaint(report(0, &along)),
        Complaint::KernelResidual(_)
    ));
    assert_eq!(
        theseus::nullspace::rounded_nullity(&Native, double(2.0000001), 3, double(1e-9)).unwrap(),
        2
    );
    assert_eq!(
        theseus::nullspace::rounded_nullity(&Native, double(-0.0000001), 3, double(1e-9)).unwrap(),
        0
    );
    assert!(matches!(
        plain_complaint(theseus::nullspace::rounded_nullity(
            &Native,
            double(1.5),
            3,
            double(1e-9)
        )),
        Complaint::TraceNotInteger { .. }
    ));
    let columns = vec![reals(&[1.0, 0.0]), reals(&[2.0, 0.0])];
    assert!(matches!(
        plain_complaint(theseus::probe::accept_panel(
            &Native,
            &columns,
            2,
            2,
            &reals(&[2.0, 0.0])
        )),
        Complaint::PanelRank { found: 1, wanted: 2 }
    ));
    assert!(matches!(
        plain_complaint(theseus::probe::accept_panel(
            &Native,
            &columns,
            2,
            2,
            &reals(&[2.0, 1.0])
        )),
        Complaint::PanelBasis { found: 1, wanted: 2 }
    ));
    let panel = theseus::probe::accept_panel(&Native, &columns, 2, 1, &reals(&[2.0, 1.0])).unwrap();
    assert_eq!(floats(&panel[0]), [1.0, 0.0]);
    let wide = EquilibriumSystem {
        a: SparseColMatOwned::from_coo(1, 2, &[0, 0], &[0, 1], &[1.0, 1.0]).unwrap(),
        p: vec![0.0],
        lengths: vec![1.0; 2],
        n_eq: 1,
        n_edges: 2,
        free_positions: Array2::zeros((0, 3)),
        n_free: 0,
    };
    assert!(matches!(
        complaint_of(analyze(
            &wide,
            &NullspaceOptions { method: NullspaceMethod::SparseQr, ..options(3) }
        )),
        Complaint::ComparisonWide { rows: 1, cols: 2 }
    ));
    assert!(matches!(
        plain_complaint(theseus::nullspace::check_stationarity(
            &Native,
            &built,
            &reals(&[f64::NAN]),
            double(1e-9)
        )),
        Complaint::ComparisonNotFinite
    ));
    assert!(matches!(
        plain_complaint(theseus::nullspace::check_stationarity(
            &Native,
            &built,
            &reals(&[5.0]),
            double(1e-9)
        )),
        Complaint::ComparisonStationarity { .. }
    ));
    let half = matrix(&Array2::from_shape_vec((1, 1), vec![0.5]).unwrap());
    assert!(matches!(
        plain_complaint(theseus::nullspace::check_identity(&Native, &half, 1, double(1e-9))),
        Complaint::ComparisonRank { .. }
    ));
}

#[test]
fn spg_projects_every_step_into_its_box() {
    let m = SparseColMatOwned::from_coo(2, 2, &[0, 1], &[0, 1], &[1.0, 1.0]).unwrap();
    let bounds = theseus::bounds::BoxBounds {
        lower: reals(&[0.0, 0.0]),
        upper: reals(&[1.0, 1.0]),
    };
    let found = theseus::spg::solve_spg_on::<Native, Kernels>(
        &Native,
        &Kernels,
        &m.0,
        &reals(&[2.0, -3.0]),
        double(0.0),
        &bounds,
        50,
        double(1e-12),
        &reals(&[0.5, 0.5]),
        None,
    )
    .unwrap();
    assert_eq!(floats(&found.q), [1.0, 0.0]);
    assert!(found.converged);
    let once = theseus::spg::solve_spg_on::<Native, Kernels>(
        &Native,
        &Kernels,
        &m.0,
        &reals(&[2.0, -3.0]),
        double(0.0),
        &bounds,
        0,
        double(0.0),
        &reals(&[0.5, 0.5]),
        None,
    )
    .unwrap();
    assert_eq!(once.iterations, 1);
    assert_eq!(floats(&once.q), [1.0, 0.0]);
}

#[test]
fn problems_are_made_of_sized_lists() {
    let lists = |loads: usize, positions: usize, node: usize| ProblemLists {
        num_edges: 1,
        num_nodes: 2,
        coo_rows: vec![0, 0],
        coo_cols: vec![0, 1],
        coo_vals: reals(&[-1.0, 1.0]),
        free_nodes: vec![node],
        fixed_nodes: vec![1],
        loads: reals(&vec![0.0; loads]),
        fixed_positions: reals(&vec![0.0; positions]),
        lower_bounds: reals(&[0.1]),
        upper_bounds: reals(&[10.0]),
    };
    let problem = create_problem(&Native, lists(3, 3, 0), None, solver_options()).unwrap();
    assert_eq!(problem.topology.free_incidence.row_indices, [0]);
    assert_eq!(floats(&problem.topology.free_incidence.values), [-1.0]);
    assert_eq!(floats(&problem.topology.fixed_incidence.values), [1.0]);
    assert!(problem.anchors.fixed_indices.is_empty());
    assert!(problem.anchors.variable_supports.is_empty());
    assert!(matches!(
        plain_complaint(create_problem(&Native, lists(2, 3, 0), None, solver_options())),
        Complaint::ListLength(theseus::error::Listed::Loads)
    ));
    assert!(matches!(
        plain_complaint(create_problem(&Native, lists(3, 2, 0), None, solver_options())),
        Complaint::ListLength(theseus::error::Listed::FixedPositions)
    ));
    assert!(matches!(
        plain_complaint(create_problem(&Native, lists(3, 3, 9), None, solver_options())),
        Complaint::NodeRange { node: 9 }
    ));
    let signed = theseus::objectives::Objective::reaction_magnitude(
        &Native,
        double(1.0),
        vec![1],
        reals(&[0.0, 0.0, 0.0]),
        reals(&[2.0]),
        theseus::objectives::ReactionMagnitudeBehavior::Max,
        theseus::objectives::ReactionMagnitudeSign::SignedProjected,
        true,
    );
    assert!(matches!(plain_complaint(signed), Complaint::ReactionDirection { row: 0 }));
    let counted = theseus::objectives::Objective::reaction_magnitude(
        &Native,
        double(1.0),
        vec![1],
        reals(&[0.0, 0.0, 1.0]),
        vec![],
        theseus::objectives::ReactionMagnitudeBehavior::Max,
        theseus::objectives::ReactionMagnitudeSign::Unsigned,
        false,
    );
    assert!(matches!(
        plain_complaint(counted),
        Complaint::ListLength(theseus::error::Listed::Magnitudes)
    ));
}

#[test]
fn requests_are_solved_at_the_current_densities() {
    let (problem, _) = triangle_problem();
    let (target, _) = forward_target(&problem, &[2.0, 3.0]);
    let request = |metric: i32| theseus::handle::InverseRequest {
        regularization: double(1e-12),
        use_l2: 1,
        max_l1_iter: 1,
        particular_method: 1,
        linear_algebra: 0,
        enforce_zero_rx: 0,
        enforce_zero_ry: 0,
        enforce_zero_rz: 0,
        solve_for_q: 1,
        signs: vec![],
        lower: vec![],
        upper: vec![],
        max_iter: 100,
        tol: double(1e-10),
        metric,
        q_ref: vec![],
        max_outer: 0,
    };
    let solve = |metric: i32| {
        theseus::handle::solve_inverse_request(
            &Native,
            &Kernels,
            &problem.built(),
            &matrix(&target),
            request(metric),
            &reals(&[1.0, 1.0]),
        )
    };
    let force = floats(&solve(0).unwrap().q);
    assert!((force[0] - 2.0).abs() < 1e-6 && (force[1] - 3.0).abs() < 1e-6);
    let start = achieved_error(&problem, &target, &[1.0, 1.0]);
    let found = solve(2).unwrap();
    assert!(float(found.geometric_error) <= start);
    assert!(matches!(plain_complaint(solve(7)), Complaint::UnknownMetric(7)));
}

#[test]
fn solves_of_the_same_problem_agree() {
    let (problem, _) = triangle_problem();
    let (target, _) = forward_target(&problem, &[2.0, 3.0]);
    let target = jitter_z(&target);
    for metric in [InverseMetric::Force, InverseMetric::GeometryNewton] {
        let solve = || {
            let mut o = inverse_opts(
                1e-8,
                true,
                ParticularMethod::Augmented,
                LinearAlgebra::Direct,
                true,
            );
            o.metric = metric;
            solve_inverse_fdm(&problem, &target, o).unwrap()
        };
        let (once, again) = (solve(), solve());
        assert_eq!(once.q, again.q);
        assert_eq!((once.iterations, once.converged), (again.iterations, again.converged));
        assert_eq!(once.geometric_error, again.geometric_error);
    }
}

#[test]
fn no_budget_returns_the_force_solution() {
    let (problem, _) = triangle_problem();
    let (target, _) = forward_target(&problem, &[2.0, 3.0]);
    let target = jitter_z(&target);
    let solve = |metric: InverseMetric| {
        let mut o = inverse_opts(
            1e-8,
            true,
            ParticularMethod::Augmented,
            LinearAlgebra::Direct,
            true,
        );
        o.metric = metric;
        o.q_ref = vec![];
        o.max_frozen_outer = 0;
        o.max_outer = 0;
        solve_inverse_fdm(&problem, &target, o).unwrap()
    };
    let force = solve(InverseMetric::Force);
    for metric in [InverseMetric::Geometry, InverseMetric::GeometryNewton] {
        let found = solve(metric);
        assert_eq!(found.iterations, 0);
        assert_eq!(found.q, force.q);
        assert_eq!(found.geometric_error, force.geometric_error);
    }
}

#[test]
fn ranks_and_null_spaces_fill_the_dimensions() {
    let (problem, target) = one_bar();
    for method in [0, 1, 2] {
        let report = theseus::handle::rigidity_report(
            &Native,
            &Kernels,
            &problem.built(),
            &matrix(&target),
            method,
            0,
            8,
        )
        .unwrap();
        let sizes = theseus::handle::report_sizes(&report);
        assert_eq!(sizes.rank + sizes.self_stress_count, 1);
        assert_eq!(sizes.rank + sizes.mechanism_raw_count, 3);
    }
}

#[test]
fn infinite_references_between_supports_end_as_what_is_not_finite() {
    let edges = vec![(0, 1), (1, 2), (0, 2)];
    let problem = make_problem(
        &edges,
        3,
        vec![1],
        vec![0, 2],
        Array2::from_shape_vec((1, 3), vec![0.0, 0.0, -1.0]).unwrap(),
        Array2::from_shape_vec((2, 3), vec![0.0, 0.0, 0.0, 2.0, 0.0, 0.0]).unwrap(),
    );
    let (target, _) = forward_target(&problem, &[2.0, 3.0, 1.0]);
    let solve = |linear_algebra: LinearAlgebra, lower: Vec<f64>| {
        let mut o = inverse_opts(1e-8, true, ParticularMethod::Augmented, linear_algebra, true);
        o.metric = InverseMetric::Geometry;
        o.max_outer = 4;
        o.cwls_damping = 1e-6;
        o.lower = lower;
        o.q_ref = vec![1.0, 1.0, f64::INFINITY];
        complaint_of(solve_inverse_fdm(&problem, &target, o))
    };
    let bounded = vec![0.0, 0.0, f64::NEG_INFINITY];
    for complaint in [
        solve(LinearAlgebra::Direct, vec![]),
        solve(LinearAlgebra::Direct, bounded.clone()),
        solve(LinearAlgebra::Iterative, vec![]),
        solve(LinearAlgebra::Iterative, bounded),
    ] {
        assert!(
            matches!(
                complaint,
                Complaint::NotFinite {
                    source: theseus::error::Source::InverseFdmGeometric,
                    edge: 2,
                }
            ),
            "{complaint:?}"
        );
    }
}

#[test]
fn capping_modes_of_a_decomposition_keeps_the_counts() {
    let (problem, target) = one_bar();
    let counts = |max_modes: usize| {
        let report = theseus::handle::rigidity_report(
            &Native,
            &Kernels,
            &problem.built(),
            &matrix(&target),
            1,
            0,
            max_modes,
        )
        .unwrap();
        let s = theseus::handle::report_sizes(&report);
        (
            s.rank,
            s.self_stress_count,
            s.mechanism_raw_count,
            s.mechanism_count,
            s.rigid_count,
        )
    };
    assert_eq!(counts(0), counts(8));
    assert_eq!(counts(1), counts(8));
}

#[test]
fn forces_and_densities_share_their_rows() {
    let (problem, _) = triangle_problem();
    let (target, _) = forward_target(&problem, &[2.0, 3.0]);
    let force = EquilibriumSystem::force(&problem, &target, true, true, true).unwrap();
    let density = EquilibriumSystem::assemble(
        &problem,
        &target,
        EquilibriumUnknown::ForceDensity,
        true,
        true,
        true,
    )
    .unwrap();
    assert_eq!(force.p, density.p);
    assert_eq!(force.lengths, density.lengths);
    assert_eq!((force.n_eq, force.n_edges), (density.n_eq, density.n_edges));
    assert_eq!(force.a.0.row_indices, density.a.0.row_indices);
    assert_eq!(force.a.0.col_ptrs, density.a.0.col_ptrs);
    for column in 0..force.n_edges {
        let from = force.a.0.col_ptrs[column] as usize;
        let to = force.a.0.col_ptrs[column + 1] as usize;
        for k in from..to {
            let scaled = float(force.a.0.values[k]) * force.lengths[column];
            assert!((scaled - float(density.a.0.values[k])).abs() < 1e-14);
        }
    }
}

#[test]
fn reported_errors_are_those_of_a_measurement() {
    let (problem, _) = triangle_problem();
    let (target, _) = forward_target(&problem, &[2.0, 3.0]);
    let target = jitter_z(&target);
    for metric in [InverseMetric::Force, InverseMetric::Geometry] {
        let mut o = inverse_opts(
            1e-3,
            true,
            ParticularMethod::Augmented,
            LinearAlgebra::Direct,
            true,
        );
        o.metric = metric;
        let found = solve_inverse_fdm(&problem, &target, o).unwrap();
        let offsets = geometric_error_vector(&problem, &target, &found.q).unwrap();
        let norm = offsets.iter().map(|v| v * v).sum::<f64>().sqrt();
        assert!((found.geometric_error - norm).abs() < 1e-14);
    }
    let (problem, target) = one_bar();
    let mut o = inverse_opts(
        1.0,
        true,
        ParticularMethod::Augmented,
        LinearAlgebra::Direct,
        true,
    );
    o.lower = vec![0.0];
    o.upper = vec![0.0];
    let found = solve_inverse_fdm(&problem, &target, o).unwrap();
    assert_eq!(found.q, [0.0]);
    assert!(found.geometric_error.is_nan());
}
